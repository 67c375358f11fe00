//! Verified text helpers with exact `Seq<char>` models: whole-text substring
//! replacement, whitespace trimming, alphanumeric filtering, and decimal
//! formatting of integers.

use crate::unicode::{char_alnum, char_white, is_alnum, is_white};
use vstd::prelude::*;
use vstd::string::StrSliceExecFns;
use vstd::string::StringExecFns;

verus! {

/// `s` with every occurrence of `from` replaced by `to`: matches are found
/// left to right, never overlap, and replaced text is not scanned again.
/// Meaningful for a non-empty `from`; an empty `from` leaves `s` unchanged.
pub open spec fn replaced(s: Seq<char>, from: Seq<char>, to: Seq<char>) -> Seq<char>
    decreases s.len(),
{
    if from.len() == 0 || s.len() < from.len() {
        s
    } else if s.subrange(0, from.len() as int) == from {
        to + replaced(s.skip(from.len() as int), from, to)
    } else {
        seq![s[0]] + replaced(s.skip(1), from, to)
    }
}

/// Relies on `str::replace`: replaces every non-overlapping match of `from`,
/// scanned left to right, with `to`.
#[verifier::external_body]
pub fn str_replace(text: &str, from: &str, to: &str) -> (r: String)
    requires
        from@.len() > 0,
    ensures
        r@ == replaced(text@, from@, to@),
{
    text.replace(from, to)
}

/// A text that nowhere holds the character `c` is left unchanged when a
/// pattern starting with `c` is replaced in it.
pub proof fn lemma_replaced_absent(s: Seq<char>, from: Seq<char>, to: Seq<char>)
    requires
        from.len() > 0,
        !s.contains(from[0]),
    ensures
        replaced(s, from, to) == s,
    decreases s.len(),
{
    if s.len() >= from.len() {
        if s.subrange(0, from.len() as int) == from {
            assert(s[0] == from[0]);
            assert(s.contains(from[0]));
        }
        assert(!s.skip(1).contains(from[0])) by {
            if s.skip(1).contains(from[0]) {
                let i = choose|i: int| 0 <= i < s.skip(1).len() && s.skip(1)[i] == from[0];
                assert(s[i + 1] == from[0]);
            }
        }
        lemma_replaced_absent(s.skip(1), from, to);
        assert(seq![s[0]] + s.skip(1) =~= s);
    }
}

/// The result of a replacement is the text unchanged, or at least as long as
/// the inserted pattern.
proof fn lemma_replaced_len(s: Seq<char>, from: Seq<char>, to: Seq<char>)
    requires
        from.len() > 0,
    ensures
        replaced(s, from, to) == s || replaced(s, from, to).len() >= to.len(),
    decreases s.len(),
{
    if s.len() >= from.len() {
        if s.subrange(0, from.len() as int) == from {
        } else {
            lemma_replaced_len(s.skip(1), from, to);
            if replaced(s.skip(1), from, to) == s.skip(1) {
                assert(seq![s[0]] + s.skip(1) =~= s);
            }
        }
    }
}

/// Replacing a pattern in a text, and then replacing the inserted text back,
/// restores the original, provided the inserted pattern's first character
/// occurs nowhere in the original text.
pub proof fn lemma_replaced_roundtrip(s: Seq<char>, from: Seq<char>, to: Seq<char>)
    requires
        from.len() > 0,
        to.len() > 0,
        !s.contains(to[0]),
    ensures
        replaced(replaced(s, from, to), to, from) == s,
    decreases s.len(),
{
    let inner = replaced(s, from, to);
    if s.len() < from.len() {
        lemma_replaced_absent(s, to, from);
    } else if s.subrange(0, from.len() as int) == from {
        let rest = replaced(s.skip(from.len() as int), from, to);
        assert(inner == to + rest);
        assert((to + rest).subrange(0, to.len() as int) =~= to);
        assert((to + rest).skip(to.len() as int) =~= rest);
        assert(!s.skip(from.len() as int).contains(to[0])) by {
            if s.skip(from.len() as int).contains(to[0]) {
                let i = choose|i: int|
                    0 <= i < s.skip(from.len() as int).len() && s.skip(from.len() as int)[i]
                        == to[0];
                assert(s[i + from.len()] == to[0]);
            }
        }
        lemma_replaced_roundtrip(s.skip(from.len() as int), from, to);
        assert(from + s.skip(from.len() as int) =~= s);
    } else {
        let rest = replaced(s.skip(1), from, to);
        assert(inner == seq![s[0]] + rest);
        assert(!s.skip(1).contains(to[0])) by {
            if s.skip(1).contains(to[0]) {
                let i = choose|i: int| 0 <= i < s.skip(1).len() && s.skip(1)[i] == to[0];
                assert(s[i + 1] == to[0]);
            }
        }
        lemma_replaced_roundtrip(s.skip(1), from, to);
        if inner.len() < to.len() {
            lemma_replaced_len(s.skip(1), from, to);
            assert(rest == s.skip(1));
            assert(seq![s[0]] + s.skip(1) =~= s);
            lemma_replaced_absent(s, to, from);
        } else {
            assert(s[0] != to[0]) by {
                if s[0] == to[0] {
                    assert(s.contains(to[0]));
                }
            }
            if inner.subrange(0, to.len() as int) == to {
                assert(inner[0] == to[0]);
                assert(inner[0] == s[0]);
            }
            assert(inner.skip(1) =~= rest);
            assert(seq![s[0]] + s.skip(1) =~= s);
        }
    }
}

/// The character for a single decimal digit.
pub open spec fn digit_char(d: nat) -> char {
    if d == 0 {
        '0'
    } else if d == 1 {
        '1'
    } else if d == 2 {
        '2'
    } else if d == 3 {
        '3'
    } else if d == 4 {
        '4'
    } else if d == 5 {
        '5'
    } else if d == 6 {
        '6'
    } else if d == 7 {
        '7'
    } else if d == 8 {
        '8'
    } else {
        '9'
    }
}

/// The decimal representation of `n`, most significant digit first, without
/// leading zeros (except for `n == 0` itself).
pub open spec fn dec_rep(n: nat) -> Seq<char>
    decreases n,
{
    if n < 10 {
        seq![digit_char(n)]
    } else {
        dec_rep(n / 10) + seq![digit_char(n % 10)]
    }
}

/// `n` in decimal, zero-padded on the left to at least two digits.
pub open spec fn pad2(n: nat) -> Seq<char> {
    if n < 10 {
        seq!['0'] + dec_rep(n)
    } else {
        dec_rep(n)
    }
}

/// `n` in decimal, zero-padded on the left to at least three digits.
pub open spec fn pad3(n: nat) -> Seq<char> {
    if n < 100 {
        seq!['0'] + pad2(n)
    } else {
        dec_rep(n)
    }
}

fn digit_str(d: u64) -> (r: &'static str)
    requires
        d < 10,
    ensures
        r@ == seq![digit_char(d as nat)],
{
    if d == 0 {
        proof {
            reveal_strlit("0");
        }
        assert("0"@ =~= seq![digit_char(0)]);
        "0"
    } else if d == 1 {
        proof {
            reveal_strlit("1");
        }
        assert("1"@ =~= seq![digit_char(1)]);
        "1"
    } else if d == 2 {
        proof {
            reveal_strlit("2");
        }
        assert("2"@ =~= seq![digit_char(2)]);
        "2"
    } else if d == 3 {
        proof {
            reveal_strlit("3");
        }
        assert("3"@ =~= seq![digit_char(3)]);
        "3"
    } else if d == 4 {
        proof {
            reveal_strlit("4");
        }
        assert("4"@ =~= seq![digit_char(4)]);
        "4"
    } else if d == 5 {
        proof {
            reveal_strlit("5");
        }
        assert("5"@ =~= seq![digit_char(5)]);
        "5"
    } else if d == 6 {
        proof {
            reveal_strlit("6");
        }
        assert("6"@ =~= seq![digit_char(6)]);
        "6"
    } else if d == 7 {
        proof {
            reveal_strlit("7");
        }
        assert("7"@ =~= seq![digit_char(7)]);
        "7"
    } else if d == 8 {
        proof {
            reveal_strlit("8");
        }
        assert("8"@ =~= seq![digit_char(8)]);
        "8"
    } else {
        proof {
            reveal_strlit("9");
        }
        assert("9"@ =~= seq![digit_char(9)]);
        "9"
    }
}

/// Renders `n` in decimal.
pub fn u64_to_dec(n: u64) -> (r: String)
    ensures
        r@ == dec_rep(n as nat),
    decreases n,
{
    if n < 10 {
        String::from_str(digit_str(n))
    } else {
        let mut s = u64_to_dec(n / 10);
        s.append(digit_str(n % 10));
        s
    }
}

/// Renders `n` in decimal, zero-padded to at least two digits.
pub fn u64_to_pad2(n: u64) -> (r: String)
    ensures
        r@ == pad2(n as nat),
{
    if n < 10 {
        let mut s = String::from_str("0");
        proof {
            reveal_strlit("0");
            assert("0"@ =~= seq!['0']);
        }
        s.append(digit_str(n));
        s
    } else {
        u64_to_dec(n)
    }
}

/// Renders `n` in decimal, zero-padded to at least three digits.
pub fn u64_to_pad3(n: u64) -> (r: String)
    ensures
        r@ == pad3(n as nat),
{
    if n < 100 {
        let mut s = String::from_str("0");
        proof {
            reveal_strlit("0");
            assert("0"@ =~= seq!['0']);
        }
        let rest = u64_to_pad2(n);
        s.append(rest.as_str());
        s
    } else {
        u64_to_dec(n)
    }
}

/// `s` without its leading whitespace characters.
pub open spec fn trim_start_spec(s: Seq<char>) -> Seq<char>
    decreases s.len(),
{
    if s.len() > 0 && char_white(s[0]) {
        trim_start_spec(s.drop_first())
    } else {
        s
    }
}

/// `s` without its trailing whitespace characters.
pub open spec fn trim_end_spec(s: Seq<char>) -> Seq<char>
    decreases s.len(),
{
    if s.len() > 0 && char_white(s.last()) {
        trim_end_spec(s.drop_last())
    } else {
        s
    }
}

/// `s` without leading and trailing whitespace, as `str::trim` yields it.
pub open spec fn trim_spec(s: Seq<char>) -> Seq<char> {
    trim_end_spec(trim_start_spec(s))
}

proof fn lemma_trim_start_skip(s: Seq<char>, k: int)
    requires
        0 <= k <= s.len(),
        forall|i: int| 0 <= i < k ==> char_white(s[i]),
        k < s.len() ==> !char_white(s[k]),
    ensures
        trim_start_spec(s) == s.skip(k),
    decreases k,
{
    if k == 0 {
        assert(s.skip(0) =~= s);
    } else {
        assert(char_white(s[0]));
        assert(forall|i: int| 0 <= i < k - 1 ==> char_white(#[trigger] s.drop_first()[i]));
        lemma_trim_start_skip(s.drop_first(), k - 1);
        assert(s.drop_first().skip(k - 1) =~= s.skip(k));
    }
}

proof fn lemma_trim_end_take(s: Seq<char>, k: int)
    requires
        0 <= k <= s.len(),
        forall|i: int| k <= i < s.len() ==> char_white(s[i]),
        k > 0 ==> !char_white(s[k - 1]),
    ensures
        trim_end_spec(s) == s.take(k),
    decreases s.len(),
{
    if k == s.len() {
        assert(s.take(k) =~= s);
    } else {
        assert(char_white(s.last()));
        assert(forall|i: int|
            k <= i < s.drop_last().len() ==> char_white(#[trigger] s.drop_last()[i]));
        lemma_trim_end_take(s.drop_last(), k);
        assert(s.drop_last().take(k) =~= s.take(k));
    }
}

fn scan_trim_start(s: &str, len: usize) -> (lo: usize)
    requires
        len as nat == s@.len(),
    ensures
        lo <= len,
        forall|i: int| 0 <= i < lo ==> char_white(s@[i]),
        lo < len ==> !char_white(s@[lo as int]),
{
    let mut lo: usize = 0;
    while lo < len
        invariant
            lo <= len,
            len as nat == s@.len(),
            forall|i: int| 0 <= i < lo ==> char_white(s@[i]),
        decreases len - lo,
    {
        if !is_white(s.get_char(lo)) {
            return lo;
        }
        lo = lo + 1;
    }
    lo
}

fn scan_trim_end(s: &str, len: usize, lo: usize) -> (hi: usize)
    requires
        len as nat == s@.len(),
        lo <= len,
    ensures
        lo <= hi <= len,
        forall|i: int| hi <= i < len ==> char_white(s@[i]),
        hi > lo ==> !char_white(s@[hi - 1]),
{
    let mut hi: usize = len;
    while hi > lo
        invariant
            lo <= hi <= len,
            len as nat == s@.len(),
            forall|i: int| hi <= i < len ==> char_white(s@[i]),
        decreases hi,
    {
        if !is_white(s.get_char(hi - 1)) {
            return hi;
        }
        hi = hi - 1;
    }
    hi
}

/// `s` with leading and trailing whitespace removed.
pub fn trim_str(s: &str) -> (r: String)
    ensures
        r@ == trim_spec(s@),
{
    let len = s.unicode_len();
    let lo = scan_trim_start(s, len);
    let hi = scan_trim_end(s, len, lo);
    let sub = s.substring_char(lo, hi);
    proof {
        lemma_trim_start_skip(s@, lo as int);
        let t = s@.skip(lo as int);
        assert(forall|i: int|
            hi - lo <= i < t.len() ==> char_white(#[trigger] t[i]) && t[i] == s@[i + lo]) by {
            assert(forall|i: int| 0 <= i < t.len() ==> #[trigger] t[i] == s@[i + lo]);
        }
        lemma_trim_end_take(t, hi - lo);
        assert(t.take(hi - lo) =~= s@.subrange(lo as int, hi as int));
    }
    String::from_str(sub)
}

/// The alphanumeric characters of `s`, in order.
pub open spec fn keep_alnum(s: Seq<char>) -> Seq<char>
    decreases s.len(),
{
    if s.len() == 0 {
        Seq::empty()
    } else if char_alnum(s[0]) {
        seq![s[0]] + keep_alnum(s.drop_first())
    } else {
        keep_alnum(s.drop_first())
    }
}

/// `s` restricted to its alphanumeric characters.
pub fn alnum_only(s: &str) -> (r: String)
    ensures
        r@ == keep_alnum(s@),
{
    let len = s.unicode_len();
    let mut r = String::new();
    let mut i: usize = 0;
    proof {
        assert(s@.skip(0) =~= s@);
    }
    while i < len
        invariant
            i <= len,
            len as nat == s@.len(),
            keep_alnum(s@) == r@ + keep_alnum(s@.skip(i as int)),
        decreases len - i,
    {
        let ghost suffix = s@.skip(i as int);
        proof {
            assert(suffix[0] == s@[i as int]);
            assert(suffix.drop_first() =~= s@.skip(i + 1));
        }
        let c = s.get_char(i);
        if is_alnum(c) {
            let piece = s.substring_char(i, i + 1);
            proof {
                assert(piece@ =~= seq![s@[i as int]]);
                assert((r@ + piece@) + keep_alnum(s@.skip(i + 1)) =~= r@ + keep_alnum(suffix));
            }
            r.append(piece);
        }
        i = i + 1;
    }
    proof {
        assert(s@.skip(len as int) =~= Seq::<char>::empty());
        assert(r@ + keep_alnum(Seq::<char>::empty()) =~= r@);
    }
    r
}

} // verus!
