use vstd::prelude::*;
use crate::decimal::{capped, digit_value, digits_value, is_digit};

verus! {

/// What a scan stops at: one given character, whitespace, or the first
/// character that is not whitespace.
#[derive(Copy, Clone)]
pub enum Stop {
    At(char),
    Space,
    NonSpace,
}

/// Unicode `White_Space`, the set that `char::is_whitespace` (and so
/// `str::trim` and `str::split_whitespace`) uses.
pub open spec fn is_space(c: char) -> bool {
    ||| ('\u{9}' <= c && c <= '\u{d}')
    ||| c == ' '
    ||| c == '\u{85}'
    ||| c == '\u{a0}'
    ||| c == '\u{1680}'
    ||| ('\u{2000}' <= c && c <= '\u{200a}')
    ||| c == '\u{2028}'
    ||| c == '\u{2029}'
    ||| c == '\u{202f}'
    ||| c == '\u{205f}'
    ||| c == '\u{3000}'
}

pub open spec fn stops(stop: Stop, c: char) -> bool {
    match stop {
        Stop::At(x) => c == x,
        Stop::Space => is_space(c),
        Stop::NonSpace => !is_space(c),
    }
}

/// The position of the first character of `s` that `stop` stops at, or the
/// length of `s` when there is none.
pub open spec fn first_stop(s: Seq<char>, stop: Stop) -> nat
    decreases s.len(),
{
    if s.len() == 0 {
        0
    } else if stops(stop, s[0]) {
        0
    } else {
        1 + first_stop(s.drop_first(), stop)
    }
}

/// Nothing before the first stop stops the scan, and the character at the
/// first stop, if any, does.
pub proof fn lemma_first_stop(s: Seq<char>, stop: Stop)
    ensures
        first_stop(s, stop) <= s.len(),
        forall|j: int| 0 <= j < first_stop(s, stop) ==> !stops(stop, #[trigger] s[j]),
        first_stop(s, stop) < s.len() ==> stops(stop, s[first_stop(s, stop) as int]),
    decreases s.len(),
{
    if s.len() > 0 && !stops(stop, s[0]) {
        lemma_first_stop(s.drop_first(), stop);
        assert forall|j: int| 0 <= j < first_stop(s, stop) implies !stops(stop, #[trigger] s[j]) by {
            if j > 0 {
                assert(s[j] == s.drop_first()[j - 1]);
            }
        }
    }
}

/// The first stop is the one position before which nothing stops.
pub proof fn lemma_first_stop_at(s: Seq<char>, stop: Stop, k: nat)
    requires
        k <= s.len(),
        forall|j: int| 0 <= j < k ==> !stops(stop, #[trigger] s[j]),
        k < s.len() ==> stops(stop, s[k as int]),
    ensures
        first_stop(s, stop) == k,
    decreases s.len(),
{
    if s.len() > 0 && k > 0 {
        assert(!stops(stop, s[0]));
        assert forall|j: int| 0 <= j < k - 1 implies !stops(stop, #[trigger] s.drop_first()[j]) by {
            assert(s.drop_first()[j] == s[j + 1]);
        }
        lemma_first_stop_at(s.drop_first(), stop, (k - 1) as nat);
    }
}

/// The lines of `s` as `str::lines` gives them: split after each `'\n'`,
/// which is dropped together with one `'\r'` just before it; a final `'\n'`
/// starts no further line.
pub open spec fn lines_of(s: Seq<char>) -> Seq<Seq<char>>
    decreases s.len(),
{
    if s.len() == 0 {
        Seq::empty()
    } else {
        let k = first_stop(s, Stop::At('\n'));
        if k >= s.len() {
            seq![s]
        } else {
            seq![without_cr(s.take(k as int))] + lines_of(s.skip((k + 1) as int))
        }
    }
}

/// `l` without one trailing `'\r'`.
pub open spec fn without_cr(l: Seq<char>) -> Seq<char> {
    if l.len() > 0 && l.last() == '\r' {
        l.drop_last()
    } else {
        l
    }
}

/// The fields of `s` between single spaces, as `str::split(' ')` gives
/// them: empty fields included, one field more than there are spaces.
pub open spec fn fields_of(s: Seq<char>) -> Seq<Seq<char>>
    decreases s.len(),
{
    let k = first_stop(s, Stop::At(' '));
    if k >= s.len() {
        seq![s]
    } else {
        seq![s.take(k as int)] + fields_of(s.skip((k + 1) as int))
    }
}

/// The words of `s` as `str::split_whitespace` gives them: the maximal
/// runs of non-whitespace characters, in order.
pub open spec fn words(s: Seq<char>) -> Seq<Seq<char>>
    decreases s.len(),
{
    if s.len() == 0 {
        Seq::empty()
    } else if is_space(s[0]) {
        words(s.drop_first())
    } else {
        let k = first_stop(s, Stop::Space);
        proof {
            lemma_first_stop(s, Stop::Space);
            assert(k >= 1);
        }
        seq![s.take(k as int)] + words(s.skip(k as int))
    }
}

/// The length of `s` without its trailing whitespace.
pub open spec fn content_end(s: Seq<char>) -> nat
    decreases s.len(),
{
    if s.len() == 0 {
        0
    } else if is_space(s.last()) {
        content_end(s.drop_last())
    } else {
        s.len()
    }
}

/// `s` without leading and trailing whitespace, as `str::trim` gives it.
pub open spec fn trim(s: Seq<char>) -> Seq<char> {
    let t = s.skip(first_stop(s, Stop::NonSpace) as int);
    t.take(content_end(t) as int)
}

/// `s` holds only whitespace: `str::trim` leaves nothing of it.
pub open spec fn is_blank(s: Seq<char>) -> bool {
    forall|i: int| 0 <= i < s.len() ==> is_space(#[trigger] s[i])
}

/// The digits of `s` read as an unsigned number: `s` without one leading
/// `'+'`.
pub open spec fn unsigned_digits(s: Seq<char>) -> Seq<char> {
    if s.len() > 0 && s[0] == '+' {
        s.drop_first()
    } else {
        s
    }
}

/// `d` is one or more ASCII digits.
pub open spec fn all_digits(d: Seq<char>) -> bool {
    d.len() > 0 && forall|i: int| 0 <= i < d.len() ==> is_digit(#[trigger] d[i])
}

/// The value of `s` read as an unsigned number the way `str::parse` reads
/// one: an optional `'+'`, then one or more ASCII digits.
pub open spec fn unsigned_value(s: Seq<char>) -> Option<nat> {
    if all_digits(unsigned_digits(s)) {
        Some(digits_value(unsigned_digits(s)))
    } else {
        None
    }
}

/// `s` parses as an unsigned number of a type whose largest value is `max`.
pub open spec fn parses_within(s: Seq<char>, max: nat) -> bool {
    unsigned_value(s) matches Some(v) && v <= max
}

/// The characters of `s`, in order.
pub fn chars_of(s: &str) -> (r: Vec<char>)
    ensures
        r@ == s@,
{
    broadcast use vstd::string::group_string_axioms;

    let mut r: Vec<char> = Vec::new();
    for c in it: s.chars()
        invariant
            it.seq() == s@,
            r@ == s@.take(it.index() as int),
    {
        assert(s@.take(it.index() + 1) =~= r@.push(c));
        r.push(c);
    }
    assert(r@ =~= s@);
    r
}

/// The position of the first character in `cs[from..to]` that `stop` stops
/// at, or `to`.
pub fn find_stop(cs: &Vec<char>, from: usize, to: usize, stop: Stop) -> (r: usize)
    requires
        from <= to <= cs.len(),
    ensures
        r == from + first_stop(cs@.subrange(from as int, to as int), stop),
        from <= r <= to,
{
    let ghost s = cs@.subrange(from as int, to as int);
    let mut i: usize = from;
    while i < to
        invariant
            from <= i <= to <= cs.len(),
            s == cs@.subrange(from as int, to as int),
            forall|j: int| 0 <= j < i - from ==> !stops(stop, #[trigger] s[j]),
        decreases to - i,
    {
        let c = cs[i];
        let hit = match stop {
            Stop::At(x) => c == x,
            Stop::Space => is_space_char(c),
            Stop::NonSpace => !is_space_char(c),
        };
        if hit {
            assert(s[i - from] == c);
            proof {
                lemma_first_stop_at(s, stop, (i - from) as nat);
            }
            return i;
        }
        assert(s[i - from] == c);
        i = i + 1;
    }
    proof {
        lemma_first_stop_at(s, stop, (i - from) as nat);
    }
    i
}

/// Whether `c` is whitespace.
pub fn is_space_char(c: char) -> (r: bool)
    ensures
        r == is_space(c),
{
    ('\u{9}' <= c && c <= '\u{d}') || c == ' ' || c == '\u{85}' || c == '\u{a0}' || c
        == '\u{1680}' || ('\u{2000}' <= c && c <= '\u{200a}') || c == '\u{2028}' || c
        == '\u{2029}' || c == '\u{202f}' || c == '\u{205f}' || c == '\u{3000}'
}

/// Reads `cs[from..to]` as an unsigned number; a value beyond `u64::MAX`
/// reads as `u64::MAX + 1`.
pub fn parse_unsigned(cs: &Vec<char>, from: usize, to: usize) -> (r: Option<u128>)
    requires
        from <= to <= cs.len(),
    ensures
        match r {
            Some(v) => unsigned_value(cs@.subrange(from as int, to as int)) matches Some(n) && v
                == capped(n, u64::MAX as nat + 1),
            None => unsigned_value(cs@.subrange(from as int, to as int)) is None,
        },
{
    let ghost s = cs@.subrange(from as int, to as int);
    let cap: u128 = 0x1_0000_0000_0000_0000;
    let start = if from < to && cs[from] == '+' {
        from + 1
    } else {
        from
    };
    let ghost d = cs@.subrange(start as int, to as int);
    assert(d == unsigned_digits(s));
    if start == to {
        return None;
    }
    let mut v: u128 = 0;
    let mut i: usize = start;
    while i < to
        invariant
            from <= start <= i <= to <= cs.len(),
            d == cs@.subrange(start as int, to as int),
            s == cs@.subrange(from as int, to as int),
            d == unsigned_digits(s),
            cap == u64::MAX as nat + 1,
            forall|j: int| 0 <= j < i - start ==> is_digit(#[trigger] d[j]),
            v == capped(digits_value(d.take(i - start)), cap as nat),
        decreases to - i,
    {
        let c = cs[i];
        assert(d[i - start] == c);
        if !('0' <= c && c <= '9') {
            assert(!is_digit(d[i - start]));
            return None;
        }
        let digit = (c as u32 - 48) as u128;
        let ghost prefix = d.take(i - start);
        assert(d.take(i - start + 1).drop_last() =~= prefix);
        assert(d.take(i - start + 1).last() == c);
        let w = v * 10 + digit;
        v = if w < cap {
            w
        } else {
            cap
        };
        i = i + 1;
        proof {
            let a = digits_value(prefix);
            assert(digits_value(d.take(i - start)) == a * 10 + digit_value(c));
            if a >= cap {
                assert(a * 10 >= cap) by (nonlinear_arith)
                    requires
                        a >= cap,
                ;
            }
        }
    }
    assert(d.take(to - start) =~= d);
    Some(v)
}

/// The line that starts at `from`: it ends at `end` and the next one starts
/// at `next` (the end of the text when it is the last).
pub fn next_line(cs: &Vec<char>, from: usize) -> (r: (usize, usize))
    requires
        from < cs.len(),
    ensures
        from <= r.0 <= r.1 <= cs.len(),
        from < r.1,
        lines_of(cs@.skip(from as int)) == seq![cs@.subrange(from as int, r.0 as int)] + lines_of(
            cs@.skip(r.1 as int),
        ),
{
    let n: usize = cs.len();
    let j = find_stop(cs, from, n, Stop::At('\n'));
    let ghost t = cs@.skip(from as int);
    let ghost k = first_stop(t, Stop::At('\n'));
    assert(cs@.subrange(from as int, n as int) == t);
    if j == n {
        assert(cs@.skip(n as int) =~= Seq::<char>::empty());
        assert(cs@.subrange(from as int, n as int) == t);
        assert(lines_of(cs@.skip(n as int)) =~= Seq::<Seq<char>>::empty());
        assert(seq![t] + Seq::<Seq<char>>::empty() =~= seq![t]);
        (n, n)
    } else {
        proof {
            lemma_first_stop(t, Stop::At('\n'));
        }
        assert(t.take(k as int) =~= cs@.subrange(from as int, j as int));
        assert(t.skip((k + 1) as int) =~= cs@.skip(j + 1));
        let end = if j > from && cs[j - 1] == '\r' {
            assert(t.take(k as int).drop_last() =~= cs@.subrange(from as int, j - 1));
            j - 1
        } else {
            j
        };
        (end, j + 1)
    }
}

/// The fields of `s[from..to]`, split at single spaces, one step at a time:
/// the first field ends at the first space, and the rest are the fields
/// after it.
pub proof fn lemma_fields_step(s: Seq<char>, from: int, to: int)
    requires
        0 <= from <= to <= s.len(),
    ensures
        ({
            let e = from + first_stop(s.subrange(from, to), Stop::At(' '));
            &&& from <= e <= to
            &&& fields_of(s.subrange(from, to)) == if e >= to {
                seq![s.subrange(from, to)]
            } else {
                seq![s.subrange(from, e)] + fields_of(s.subrange(e + 1, to))
            }
        }),
{
    let t = s.subrange(from, to);
    let k = first_stop(t, Stop::At(' '));
    lemma_first_stop(t, Stop::At(' '));
    if k < t.len() {
        assert(t.take(k as int) =~= s.subrange(from, from + k));
        assert(t.skip((k + 1) as int) =~= s.subrange(from + k + 1, to));
    }
}

/// The first three fields of `cs[from..to]` split at single spaces, as the
/// positions where they end; `None` when there are fewer than three.
pub fn three_fields(cs: &Vec<char>, from: usize, to: usize) -> (r: Option<(usize, usize, usize)>)
    requires
        from <= to <= cs.len(),
    ensures
        ({
            let f = fields_of(cs@.subrange(from as int, to as int));
            match r {
                None => f.len() < 3,
                Some((e0, e1, e2)) => {
                    &&& from <= e0 < e1 < e2 + 1 <= to + 1
                    &&& e0 + 1 <= e1
                    &&& e1 + 1 <= e2 <= to
                    &&& f.len() >= 3
                    &&& f[0] == cs@.subrange(from as int, e0 as int)
                    &&& f[1] == cs@.subrange(e0 + 1, e1 as int)
                    &&& f[2] == cs@.subrange(e1 + 1, e2 as int)
                },
            }
        }),
{
    proof {
        lemma_fields_step(cs@, from as int, to as int);
    }
    let e0 = find_stop(cs, from, to, Stop::At(' '));
    if e0 == to {
        return None;
    }
    proof {
        lemma_fields_step(cs@, e0 + 1, to as int);
    }
    let e1 = find_stop(cs, e0 + 1, to, Stop::At(' '));
    if e1 == to {
        return None;
    }
    proof {
        lemma_fields_step(cs@, e1 + 1, to as int);
    }
    let e2 = find_stop(cs, e1 + 1, to, Stop::At(' '));
    Some((e0, e1, e2))
}

/// Leading whitespace does not change the words of `s`.
pub proof fn lemma_words_skip_spaces(s: Seq<char>)
    ensures
        first_stop(s, Stop::NonSpace) <= s.len(),
        words(s) == words(s.skip(first_stop(s, Stop::NonSpace) as int)),
    decreases s.len(),
{
    lemma_first_stop(s, Stop::NonSpace);
    if s.len() > 0 && is_space(s[0]) {
        lemma_words_skip_spaces(s.drop_first());
        assert(s.drop_first().skip(first_stop(s.drop_first(), Stop::NonSpace) as int) =~= s.skip(
            first_stop(s, Stop::NonSpace) as int,
        ));
    } else {
        assert(s.skip(0) =~= s);
    }
}

/// The words of `cs[from..to]`: none when only whitespace is left, else
/// the word `cs[a..b]` followed by the words of `cs[b..to]`.
pub fn next_word(cs: &Vec<char>, from: usize, to: usize) -> (r: Option<(usize, usize)>)
    requires
        from <= to <= cs.len(),
    ensures
        match r {
            None => words(cs@.subrange(from as int, to as int)) =~= Seq::<Seq<char>>::empty(),
            Some((a, b)) => {
                &&& from <= a < b <= to
                &&& words(cs@.subrange(from as int, to as int)) == seq![
                    cs@.subrange(a as int, b as int),
                ] + words(cs@.subrange(b as int, to as int))
            },
        },
{
    let ghost s = cs@.subrange(from as int, to as int);
    proof {
        lemma_words_skip_spaces(s);
    }
    let a = find_stop(cs, from, to, Stop::NonSpace);
    assert(s.skip(a - from) =~= cs@.subrange(a as int, to as int));
    if a == to {
        assert(words(cs@.subrange(a as int, to as int)) =~= Seq::<Seq<char>>::empty());
        return None;
    }
    let ghost u = cs@.subrange(a as int, to as int);
    proof {
        lemma_first_stop(s, Stop::NonSpace);
        assert(u[0] == s[a - from]);
        lemma_first_stop(u, Stop::Space);
    }
    let b = find_stop(cs, a, to, Stop::Space);
    let ghost k = first_stop(u, Stop::Space);
    assert(k == b - a);
    assert(u.take(k as int) =~= cs@.subrange(a as int, b as int));
    assert(u.skip(k as int) =~= cs@.subrange(b as int, to as int));
    Some((a, b))
}

/// Whether `cs[from..to]` is exactly `word`.
pub fn same_chars(cs: &Vec<char>, from: usize, to: usize, word: &[char]) -> (r: bool)
    requires
        from <= to <= cs.len(),
    ensures
        r == (cs@.subrange(from as int, to as int) == word@),
{
    if to - from != word.len() {
        return false;
    }
    let mut i: usize = 0;
    while i < word.len()
        invariant
            to - from == word.len(),
            from <= to <= cs.len(),
            i <= word.len(),
            forall|j: int| 0 <= j < i ==> cs@[from + j] == word@[j],
        decreases word.len() - i,
    {
        if cs[from + i] != word[i] {
            assert(cs@.subrange(from as int, to as int)[i as int] != word@[i as int]);
            return false;
        }
        i = i + 1;
    }
    assert(cs@.subrange(from as int, to as int) =~= word@);
    true
}

/// Whether `cs[from..to]` is only whitespace.
pub fn blank_between(cs: &Vec<char>, from: usize, to: usize) -> (r: bool)
    requires
        from <= to <= cs.len(),
    ensures
        r == is_blank(cs@.subrange(from as int, to as int)),
{
    let ghost s = cs@.subrange(from as int, to as int);
    let a = find_stop(cs, from, to, Stop::NonSpace);
    proof {
        lemma_first_stop(s, Stop::NonSpace);
    }
    if a < to {
        assert(!is_space(s[a - from]));
    }
    a == to
}

/// The first three words of `cs[from..to]`, as `(start, end)` positions;
/// `None` when there are fewer than three.
pub fn three_words(cs: &Vec<char>, from: usize, to: usize) -> (r: Option<
    ((usize, usize), (usize, usize), (usize, usize)),
>)
    requires
        from <= to <= cs.len(),
    ensures
        ({
            let w = words(cs@.subrange(from as int, to as int));
            match r {
                None => w.len() < 3,
                Some((p0, p1, p2)) => {
                    &&& from <= p0.0 <= p0.1 <= p1.0 <= p1.1 <= p2.0 <= p2.1 <= to
                    &&& w.len() >= 3
                    &&& w[0] == cs@.subrange(p0.0 as int, p0.1 as int)
                    &&& w[1] == cs@.subrange(p1.0 as int, p1.1 as int)
                    &&& w[2] == cs@.subrange(p2.0 as int, p2.1 as int)
                },
            }
        }),
{
    let p0 = match next_word(cs, from, to) {
        Some(p) => p,
        None => return None,
    };
    let p1 = match next_word(cs, p0.1, to) {
        Some(p) => p,
        None => return None,
    };
    let p2 = match next_word(cs, p1.1, to) {
        Some(p) => p,
        None => return None,
    };
    Some((p0, p1, p2))
}

/// `cs[from..to]` with leading and trailing whitespace removed, as the
/// positions where what is left starts and ends.
pub fn trim_bounds(cs: &Vec<char>, from: usize, to: usize) -> (r: (usize, usize))
    requires
        from <= to <= cs.len(),
    ensures
        from <= r.0 <= r.1 <= to,
        cs@.subrange(r.0 as int, r.1 as int) == trim(cs@.subrange(from as int, to as int)),
{
    let ghost s = cs@.subrange(from as int, to as int);
    let a = find_stop(cs, from, to, Stop::NonSpace);
    let ghost t = s.skip(first_stop(s, Stop::NonSpace) as int);
    assert(t =~= cs@.subrange(a as int, to as int));
    let mut j: usize = to;
    while j > a && is_space_char(cs[j - 1])
        invariant
            a <= j <= to <= cs.len(),
            t == cs@.subrange(a as int, to as int),
            content_end(t) == content_end(cs@.subrange(a as int, j as int)),
        decreases j,
    {
        assert(cs@.subrange(a as int, j as int).drop_last() =~= cs@.subrange(a as int, j - 1));
        j = j - 1;
    }
    let ghost u = cs@.subrange(a as int, j as int);
    if j > a {
        assert(u.last() == cs@[j - 1]);
    } else {
        assert(u.len() == 0);
    }
    assert(content_end(u) == j - a);
    assert(t.take(j - a) =~= u);
    (a, j)
}

} // verus!
