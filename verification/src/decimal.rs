use vstd::prelude::*;

verus! {

/// The character of decimal digit `d`.
pub open spec fn digit_char(d: nat) -> char {
    (48 + d) as char
}

pub open spec fn is_digit(c: char) -> bool {
    '0' <= c && c <= '9'
}

/// The value of digit character `c`.
pub open spec fn digit_value(c: char) -> nat {
    (c as int - 48) as nat
}

/// The decimal notation of `n`: no sign, no leading zeros.
pub open spec fn decimal_chars(n: nat) -> Seq<char>
    decreases n,
{
    if n < 10 {
        seq![digit_char(n)]
    } else {
        decimal_chars(n / 10).push(digit_char(n % 10))
    }
}

/// The number that the digits `s` denote.
pub open spec fn digits_value(s: Seq<char>) -> nat
    decreases s.len(),
{
    if s.len() == 0 {
        0
    } else {
        digits_value(s.drop_last()) * 10 + digit_value(s.last())
    }
}

/// `s` is a number in canonical decimal notation: one or more digits, with
/// no leading zero unless the number is zero.
pub open spec fn is_canonical_decimal(s: Seq<char>) -> bool {
    &&& s.len() > 0
    &&& forall|i: int| 0 <= i < s.len() ==> is_digit(#[trigger] s[i])
    &&& (s.len() == 1 || s[0] != '0')
}

/// Decimal notation is canonical and denotes the number it was made from.
pub proof fn lemma_decimal_roundtrip(n: nat)
    ensures
        is_canonical_decimal(decimal_chars(n)),
        digits_value(decimal_chars(n)) == n,
        decimal_chars(n).len() >= 1,
        n >= 10 ==> decimal_chars(n)[0] == decimal_chars(n / 10)[0],
    decreases n,
{
    assert(digit_value(digit_char(n % 10)) == n % 10);
    if n < 10 {
        assert(digit_value(digit_char(n)) == n);
        let s = decimal_chars(n);
        assert(s.drop_last() =~= Seq::<char>::empty());
        assert(s.last() == digit_char(n));
        assert(digits_value(s.drop_last()) == 0);
        assert(digits_value(s) == n);
    }
    if n >= 10 {
        lemma_decimal_roundtrip(n / 10);
        let s = decimal_chars(n);
        let p = decimal_chars(n / 10);
        assert(s == p.push(digit_char(n % 10)));
        assert(s.drop_last() =~= p);
        assert(n == (n / 10) * 10 + n % 10);
        assert(s.last() == digit_char(n % 10));
        assert(digits_value(s) == digits_value(p) * 10 + digit_value(digit_char(n % 10)));
        assert(digits_value(s) == n);
        assert(s[0] == p[0]);
        if n / 10 < 10 {
            assert(n / 10 >= 1);
            assert(p[0] != '0');
        }
        assert forall|i: int| 0 <= i < s.len() implies is_digit(#[trigger] s[i]) by {
            if i < p.len() {
                assert(s[i] == p[i]);
            }
        }
    }
}

/// The digit `d` as a one-character string.
fn digit_str(d: u64) -> (r: &'static str)
    requires
        d < 10,
    ensures
        r@ == seq![digit_char(d as nat)],
{
    let r = if d == 0 {
        proof {
            reveal_strlit("0");
        }
        "0"
    } else if d == 1 {
        proof {
            reveal_strlit("1");
        }
        "1"
    } else if d == 2 {
        proof {
            reveal_strlit("2");
        }
        "2"
    } else if d == 3 {
        proof {
            reveal_strlit("3");
        }
        "3"
    } else if d == 4 {
        proof {
            reveal_strlit("4");
        }
        "4"
    } else if d == 5 {
        proof {
            reveal_strlit("5");
        }
        "5"
    } else if d == 6 {
        proof {
            reveal_strlit("6");
        }
        "6"
    } else if d == 7 {
        proof {
            reveal_strlit("7");
        }
        "7"
    } else if d == 8 {
        proof {
            reveal_strlit("8");
        }
        "8"
    } else {
        proof {
            reveal_strlit("9");
        }
        "9"
    };
    assert(r@ =~= seq![digit_char(d as nat)]);
    r
}

/// The decimal notation of `n`: no sign, no leading zeros.
pub(crate) fn decimal_string(n: u64) -> (r: String)
    ensures
        r@ == decimal_chars(n as nat),
    decreases n,
{
    if n < 10 {
        let s = digit_str(n);
        s.to_owned()
    } else {
        let mut s = decimal_string(n / 10);
        s.append(digit_str(n % 10));
        assert(s@ =~= decimal_chars(n as nat));
        s
    }
}

/// The value of `s` capped at `cap`: at least `cap` for every larger value.
pub open spec fn capped(v: nat, cap: nat) -> nat {
    if v < cap {
        v
    } else {
        cap
    }
}

/// Reads `s` as a canonical decimal number; `None` when it is not one. A
/// value beyond `u64::MAX` reads as `u64::MAX + 1`.
pub fn parse_canonical_decimal(s: &str) -> (r: Option<u128>)
    ensures
        match r {
            Some(v) => is_canonical_decimal(s@) && v == capped(
                digits_value(s@),
                u64::MAX as nat + 1,
            ),
            None => !is_canonical_decimal(s@),
        },
{
    let cap: u128 = 0x1_0000_0000_0000_0000;
    let n: usize = s.unicode_len();
    if n == 0 {
        return None;
    }
    if n > 1 && s.get_char(0) == '0' {
        return None;
    }
    let mut v: u128 = 0;
    let mut i: usize = 0;
    while i < n
        invariant
            i <= n,
            n == s@.len(),
            cap == u64::MAX as nat + 1,
            forall|j: int| 0 <= j < i ==> is_digit(#[trigger] s@[j]),
            v == capped(digits_value(s@.take(i as int)), cap as nat),
        decreases n - i,
    {
        let c = s.get_char(i);
        if !('0' <= c && c <= '9') {
            return None;
        }
        let d = (c as u32 - 48) as u128;
        let ghost prefix = s@.take(i as int);
        assert(s@.take(i + 1).drop_last() =~= prefix);
        assert(s@.take(i + 1).last() == c);
        let w = v * 10 + d;
        v = if w < cap { w } else { cap };
        i = i + 1;
        proof {
            let a = digits_value(prefix);
            assert(digits_value(s@.take(i as int)) == a * 10 + digit_value(c));
            if a >= cap {
                assert(a * 10 >= cap) by (nonlinear_arith)
                    requires a >= cap;
            }
        }
    }
    assert(s@.take(n as int) =~= s@);
    Some(v)
}

} // verus!
