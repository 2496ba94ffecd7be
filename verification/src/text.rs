//! Decimal text handling: rendering a `u64` in decimal, parsing a decimal
//! string as a `u64` the way `str::parse::<u64>` does (optional leading `+`,
//! digits only, value must fit), and character-wise string equality.

use vstd::prelude::*;

verus! {

/// Whether `c` is an ASCII decimal digit.
pub open spec fn is_digit_char(c: char) -> bool {
    48 <= c as u32 <= 57
}

/// The numeric value of an ASCII decimal digit.
pub open spec fn digit_of(c: char) -> nat {
    (c as u32 - 48) as nat
}

/// Whether every character of `s` is an ASCII decimal digit.
pub open spec fn all_digits(s: Seq<char>) -> bool {
    forall|i: int| 0 <= i < s.len() ==> is_digit_char(s[i])
}

/// The number denoted by a sequence of decimal digits (most significant first).
pub open spec fn digits_val(s: Seq<char>) -> nat
    decreases s.len(),
{
    if s.len() == 0 {
        0
    } else {
        digits_val(s.drop_last()) * 10 + digit_of(s.last())
    }
}

/// The digit character for `d` in `0 ..= 9`.
pub open spec fn dec_digit_char(d: nat) -> char {
    if d == 0 { '0' }
    else if d == 1 { '1' }
    else if d == 2 { '2' }
    else if d == 3 { '3' }
    else if d == 4 { '4' }
    else if d == 5 { '5' }
    else if d == 6 { '6' }
    else if d == 7 { '7' }
    else if d == 8 { '8' }
    else { '9' }
}

/// The decimal rendering of `n`, most significant digit first, no sign and
/// no leading zeros (a single `'0'` for zero).
pub open spec fn dec_seq(n: nat) -> Seq<char>
    decreases n,
{
    if n < 10 {
        seq![dec_digit_char(n)]
    } else {
        dec_seq(n / 10) + seq![dec_digit_char(n % 10)]
    }
}

/// What `str::parse::<u64>` yields on `s`: an optional leading `'+'`,
/// then at least one digit, and the denoted value must fit in a `u64`;
/// anything else is rejected.
pub open spec fn spec_parse_u64(s: Seq<char>) -> Option<u64> {
    let t = if s.len() > 0 && s[0] == '+' {
        s.drop_first()
    } else {
        s
    };
    if t.len() > 0 && all_digits(t) && digits_val(t) <= u64::MAX {
        Some(digits_val(t) as u64)
    } else {
        None
    }
}

/// A one-character string slice holding the digit character for `d`.
pub(crate) fn digit_str(d: u64) -> (r: &'static str)
    requires
        d < 10,
    ensures
        r@ =~= seq![dec_digit_char(d as nat)],
{
    proof {
        reveal_strlit("0");
        reveal_strlit("1");
        reveal_strlit("2");
        reveal_strlit("3");
        reveal_strlit("4");
        reveal_strlit("5");
        reveal_strlit("6");
        reveal_strlit("7");
        reveal_strlit("8");
        reveal_strlit("9");
    }
    if d == 0 { "0" }
    else if d == 1 { "1" }
    else if d == 2 { "2" }
    else if d == 3 { "3" }
    else if d == 4 { "4" }
    else if d == 5 { "5" }
    else if d == 6 { "6" }
    else if d == 7 { "7" }
    else if d == 8 { "8" }
    else { "9" }
}

/// Appends the decimal rendering of `n` to `s`.
fn push_dec(n: u64, s: &mut String)
    ensures
        final(s)@ == old(s)@ + dec_seq(n as nat),
    decreases n,
{
    if n < 10 {
        s.append(digit_str(n));
    } else {
        proof {
            assert(n as nat / 10 < n as nat) by (nonlinear_arith)
                requires
                    n >= 10,
            ;
        }
        push_dec(n / 10, s);
        s.append(digit_str(n % 10));
        proof {
            assert(s@ =~= old(s)@ + dec_seq(n as nat));
        }
    }
}

/// The decimal rendering of `n` as a `String`.
pub fn u64_to_string(n: u64) -> (s: String)
    ensures
        s@ == dec_seq(n as nat),
{
    let mut s = String::new();
    push_dec(n, &mut s);
    proof {
        assert(s@ =~= dec_seq(n as nat));
    }
    s
}

/// Character-wise equality of two string slices.
pub fn str_eq(a: &str, b: &str) -> (r: bool)
    ensures
        r == (a@ == b@),
{
    let alen = a.unicode_len();
    let blen = b.unicode_len();
    if alen != blen {
        return false;
    }
    let mut i: usize = 0;
    while i < alen
        invariant
            0 <= i <= alen,
            alen == a@.len(),
            alen == b@.len(),
            forall|j: int| 0 <= j < i ==> a@[j] == b@[j],
        decreases alen - i,
    {
        if a.get_char(i) != b.get_char(i) {
            return false;
        }
        i += 1;
    }
    proof {
        assert(a@ =~= b@);
    }
    true
}

/// The decimal rendering of `n` is one or more digits denoting `n`.
pub proof fn lemma_dec_seq_digits(n: nat)
    ensures
        all_digits(dec_seq(n)),
        digits_val(dec_seq(n)) == n,
        dec_seq(n).len() >= 1,
    decreases n,
{
    if n < 10 {
        assert(seq![dec_digit_char(n)].drop_last() =~= Seq::<char>::empty());
        assert(digit_of(dec_digit_char(n)) == n);
        assert(digits_val(Seq::<char>::empty()) == 0);
        assert(digits_val(dec_seq(n)) == digits_val(Seq::<char>::empty()) * 10 + digit_of(
            dec_digit_char(n),
        ));
    } else {
        assert(n / 10 < n && n % 10 < 10) by (nonlinear_arith)
            requires
                n >= 10,
        ;
        lemma_dec_seq_digits(n / 10);
        let s = dec_seq(n);
        assert(s.drop_last() =~= dec_seq(n / 10));
        assert(s.last() == dec_digit_char(n % 10));
        assert(digit_of(dec_digit_char(n % 10)) == n % 10);
        assert(digits_val(s) == (n / 10) * 10 + n % 10);
        assert((n / 10) * 10 + n % 10 == n) by (nonlinear_arith);
        assert forall|i: int| 0 <= i < s.len() implies is_digit_char(s[i]) by {
            if i < s.len() - 1 {
                assert(s[i] == dec_seq(n / 10)[i]);
            }
        }
    }
}

/// Rendering a number in decimal and parsing it back gives the number:
/// the two directions of the decimal text boundary agree.
pub proof fn lemma_parse_dec_roundtrip(n: u64)
    ensures
        spec_parse_u64(dec_seq(n as nat)) == Some(n),
{
    lemma_dec_seq_digits(n as nat);
    let s = dec_seq(n as nat);
    assert(is_digit_char(s[0]));
    assert(s[0] != '+');
}

proof fn lemma_digits_val_push(p: Seq<char>, c: char)
    ensures
        digits_val(p.push(c)) == digits_val(p) * 10 + digit_of(c),
{
    assert(p.push(c).drop_last() =~= p);
    assert(p.push(c).last() == c);
}

/// What `str::parse::<u64>` does on `s`, carried out on characters:
/// an optional leading `'+'`, then digits whose value must fit in a `u64`.
#[verifier::loop_isolation(false)]
pub fn parse_u64(s: &str) -> (r: Option<u64>)
    ensures
        r == spec_parse_u64(s@),
{
    let len = s.unicode_len();
    if len == 0 {
        return None;
    }
    let start: usize = if s.get_char(0) == '+' { 1 } else { 0 };
    let ghost t: Seq<char> = s@.subrange(start as int, len as int);
    proof {
        if s@[0] == '+' {
            assert(t =~= s@.drop_first());
        } else {
            assert(t =~= s@);
        }
    }
    if len == start {
        return None;
    }
    let mut i: usize = start;
    let mut val: u64 = 0;
    let mut over = false;
    while i < len
        invariant
            start <= i <= len,
            start <= 1,
            len == s@.len(),
            t == s@.subrange(start as int, len as int),
            forall|j: int| start <= j < i ==> is_digit_char(s@[j]),
            !over ==> val as nat == digits_val(s@.subrange(start as int, i as int)),
            over ==> digits_val(s@.subrange(start as int, i as int)) > u64::MAX,
        decreases len - i,
    {
        let c = s.get_char(i);
        let cu = c as u32;
        if cu < 48 || cu > 57 {
            proof {
                assert(t[i as int - start as int] == s@[i as int]);
                assert(!all_digits(t));
            }
            return None;
        }
        let d = (cu - 48) as u64;
        let ghost p = s@.subrange(start as int, i as int);
        proof {
            assert(s@.subrange(start as int, i + 1) =~= p.push(s@[i as int]));
            lemma_digits_val_push(p, s@[i as int]);
            assert(digit_of(s@[i as int]) == d);
        }
        if over {
            proof {
                assert(digits_val(p) * 10 + d as nat > u64::MAX) by (nonlinear_arith)
                    requires
                        digits_val(p) > u64::MAX,
                ;
            }
        } else if val > (u64::MAX - d) / 10 {
            proof {
                assert(val as nat * 10 + d as nat > u64::MAX) by (nonlinear_arith)
                    requires
                        val as nat > (u64::MAX - d) as nat / 10,
                        d <= 9,
                ;
            }
            over = true;
        } else {
            proof {
                assert(val as nat * 10 + d as nat <= u64::MAX) by (nonlinear_arith)
                    requires
                        val as nat <= (u64::MAX - d) as nat / 10,
                        d <= 9,
                ;
            }
            val = val * 10 + d;
        }
        i += 1;
    }
    proof {
        assert(s@.subrange(start as int, len as int) == t);
        assert(all_digits(t));
    }
    if over {
        None
    } else {
        Some(val)
    }
}

} // verus!
