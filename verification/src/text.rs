//! Character-level helpers shared by the location parser and the renderers:
//! splitting on a separator, decimal numbers in both directions, and the
//! quoted form of a string that error messages show.

use vstd::prelude::*;

verus! {

// ── separators ───────────────────────────────────────────────────────────────

/// The positions, in ascending order, at which `c` occurs in `s`.
pub open spec fn occurrences(s: Seq<char>, c: char) -> Seq<int>
    decreases s.len(),
{
    if s.len() == 0 {
        Seq::empty()
    } else {
        let before = occurrences(s.drop_last(), c);
        if s.last() == c {
            before.push(s.len() - 1)
        } else {
            before
        }
    }
}

/// The pieces of `s` between successive occurrences of `c`, as `str::split` yields them:
/// one more piece than there are separators.
pub open spec fn split_on(s: Seq<char>, c: char) -> Seq<Seq<char>> {
    let p = occurrences(s, c);
    Seq::new(
        p.len() + 1,
        |k: int|
            s.subrange(
                if k == 0 {
                    0
                } else {
                    p[k - 1] + 1
                },
                if k == p.len() {
                    s.len() as int
                } else {
                    p[k]
                },
            ),
    )
}

/// What `str::split_once` yields: the text before the first `c` and the text after it.
pub open spec fn split_once(s: Seq<char>, c: char) -> Option<(Seq<char>, Seq<char>)> {
    let p = occurrences(s, c);
    if p.len() == 0 {
        None
    } else {
        Some((s.subrange(0, p[0]), s.subrange(p[0] + 1, s.len() as int)))
    }
}

/// The occurrences lie inside `s`, hold `c`, ascend strictly, and miss none.
pub proof fn lemma_occurrences(s: Seq<char>, c: char)
    ensures
        forall|k: int|
            0 <= k < occurrences(s, c).len() ==> 0 <= #[trigger] occurrences(s, c)[k] < s.len()
                && s[occurrences(s, c)[k]] == c,
        forall|k: int, j: int|
            0 <= k < j < occurrences(s, c).len() ==> occurrences(s, c)[k] < occurrences(
                s,
                c,
            )[j],
        forall|i: int|
            0 <= i < s.len() && s[i] == c ==> exists|k: int|
                0 <= k < occurrences(s, c).len() && occurrences(s, c)[k] == i,
    decreases s.len(),
{
    if s.len() > 0 {
        let t = s.drop_last();
        lemma_occurrences(t, c);
        let p = occurrences(s, c);
        let q = occurrences(t, c);
        assert forall|i: int| 0 <= i < s.len() && s[i] == c implies exists|k: int|
            0 <= k < p.len() && p[k] == i by {
            if i < s.len() - 1 {
                assert(t[i] == c);
                let k = choose|k: int| 0 <= k < q.len() && q[k] == i;
                assert(p[k] == i);
            } else {
                assert(p[p.len() - 1] == i);
            }
        }
    }
}

/// The positions (counted in characters) at which `c` occurs in `s`.
pub fn find_all(s: &str, c: char) -> (r: Vec<usize>)
    ensures
        r@.len() == occurrences(s@, c).len(),
        forall|k: int| 0 <= k < r@.len() ==> r@[k] as int == #[trigger] occurrences(s@, c)[k],
{
    let n = s.unicode_len();
    let mut r: Vec<usize> = Vec::new();
    let mut i: usize = 0;
    while i < n
        invariant
            n == s@.len(),
            i <= n,
            r@.len() == occurrences(s@.take(i as int), c).len(),
            forall|k: int|
                0 <= k < r@.len() ==> r@[k] as int == #[trigger] occurrences(
                    s@.take(i as int),
                    c,
                )[k],
        decreases n - i,
    {
        let ch = s.get_char(i);
        assert(s@.take(i + 1).drop_last() =~= s@.take(i as int));
        if ch == c {
            r.push(i);
        }
        i = i + 1;
    }
    assert(s@.take(n as int) =~= s@);
    r
}

// ── decimal numbers ──────────────────────────────────────────────────────────

/// The character that writes the digit `d`.
pub open spec fn digit_char(d: nat) -> char {
    if d == 0 {
        '0'
    } else if d == 1 {
        '1'
    } else if d == 2 {
        '2'
    } else if d == 3 {
        '3'
    } else if d == 4 {
        '4'
    } else if d == 5 {
        '5'
    } else if d == 6 {
        '6'
    } else if d == 7 {
        '7'
    } else if d == 8 {
        '8'
    } else {
        '9'
    }
}

/// `n` written in decimal, without sign or leading zeros.
pub open spec fn decimal(n: nat) -> Seq<char>
    decreases n,
{
    if n < 10 {
        seq![digit_char(n)]
    } else {
        decimal(n / 10).push(digit_char(n % 10))
    }
}

fn digit_str(d: usize) -> (r: &'static str)
    requires
        d < 10,
    ensures
        r@ == seq![digit_char(d as nat)],
{
    proof {
        reveal_strlit("0");
        reveal_strlit("1");
        reveal_strlit("2");
        reveal_strlit("3");
        reveal_strlit("4");
        reveal_strlit("5");
        reveal_strlit("6");
        reveal_strlit("7");
        reveal_strlit("8");
        reveal_strlit("9");
    }
    if d == 0 {
        "0"
    } else if d == 1 {
        "1"
    } else if d == 2 {
        "2"
    } else if d == 3 {
        "3"
    } else if d == 4 {
        "4"
    } else if d == 5 {
        "5"
    } else if d == 6 {
        "6"
    } else if d == 7 {
        "7"
    } else if d == 8 {
        "8"
    } else {
        "9"
    }
}

/// Appends `n`, written in decimal, to `out`.
pub fn push_decimal(out: &mut String, n: usize)
    ensures
        final(out)@ == old(out)@ + decimal(n as nat),
    decreases n,
{
    if n >= 10 {
        push_decimal(out, n / 10);
    }
    out.append(digit_str(n % 10));
    assert(final(out)@ =~= old(out)@ + decimal(n as nat));
}

/// Whether `c` is one of the ASCII digits.
pub open spec fn is_digit(c: char) -> bool {
    '0' <= c <= '9'
}

/// The value of a digit character.
pub open spec fn digit_value(c: char) -> int {
    c as int - '0' as int
}

/// The value of a run of decimal digits, most significant first.
pub open spec fn digits_value(s: Seq<char>) -> int
    decreases s.len(),
{
    if s.len() == 0 {
        0
    } else {
        digits_value(s.drop_last()) * 10 + digit_value(s.last())
    }
}

/// The digits of an unsigned number: the text without one leading `+`.
pub open spec fn unsigned_digits(s: Seq<char>) -> Seq<char> {
    if s.len() > 0 && s[0] == '+' {
        s.drop_first()
    } else {
        s
    }
}

/// What `str::parse::<usize>` accepts: an optional `+`, then one or more decimal
/// digits whose value fits in a `usize`.
pub open spec fn spec_parse_usize(s: Seq<char>) -> Option<usize> {
    let d = unsigned_digits(s);
    if d.len() > 0 && (forall|i: int| 0 <= i < d.len() ==> #[trigger] is_digit(d[i])) && digits_value(
        d,
    ) <= usize::MAX {
        Some(digits_value(d) as usize)
    } else {
        None
    }
}

/// A run of digits is worth at least as much as any of its prefixes.
proof fn lemma_digits_value_grows(s: Seq<char>, k: int)
    requires
        0 <= k <= s.len(),
        forall|i: int| 0 <= i < s.len() ==> #[trigger] is_digit(s[i]),
    ensures
        0 <= digits_value(s.take(k)) <= digits_value(s),
    decreases s.len() - k,
{
    if k == s.len() {
        assert(s.take(k) =~= s);
        lemma_digits_value_nonneg(s);
    } else {
        lemma_digits_value_grows(s, k + 1);
        let t = s.take(k + 1);
        assert(t.drop_last() =~= s.take(k));
        assert(t.last() == s[k]);
        assert(is_digit(s[k]));
        let u = s.take(k);
        assert forall|i: int| 0 <= i < u.len() implies #[trigger] is_digit(u[i]) by {
            assert(is_digit(s[i]));
        }
        lemma_digits_value_nonneg(u);
    }
}

proof fn lemma_digits_value_nonneg(s: Seq<char>)
    requires
        forall|i: int| 0 <= i < s.len() ==> #[trigger] is_digit(s[i]),
    ensures
        digits_value(s) >= 0,
    decreases s.len(),
{
    if s.len() > 0 {
        let t = s.drop_last();
        assert forall|i: int| 0 <= i < t.len() implies #[trigger] is_digit(t[i]) by {
            assert(is_digit(s[i]));
        }
        lemma_digits_value_nonneg(t);
        assert(is_digit(s[s.len() - 1]));
    }
}

/// Parses a decimal `usize` exactly as `str::parse::<usize>` does.
pub fn parse_usize(s: &str) -> (r: Option<usize>)
    ensures
        r == spec_parse_usize(s@),
{
    let n = s.unicode_len();
    let mut start: usize = 0;
    if n > 0 && s.get_char(0) == '+' {
        start = 1;
    }
    let ghost d = unsigned_digits(s@);
    assert(d =~= s@.subrange(start as int, n as int));
    if start == n {
        return None;
    }
    let mut acc: usize = 0;
    let mut i: usize = start;
    while i < n
        invariant
            n == s@.len(),
            start <= i <= n,
            start < n,
            d == unsigned_digits(s@),
            d =~= s@.subrange(start as int, n as int),
            forall|j: int| 0 <= j < i - start ==> #[trigger] is_digit(d[j]),
            acc as int == digits_value(d.take(i - start)),
        decreases n - i,
    {
        let c = s.get_char(i);
        if !('0' <= c && c <= '9') {
            assert(!is_digit(d[i - start]));
            return None;
        }
        let v = (c as u32 - '0' as u32) as usize;
        assert(d.take(i + 1 - start).drop_last() =~= d.take(i - start));
        assert(d.take(i + 1 - start).last() == c);
        match acc.checked_mul(10) {
            None => {
                proof {
                    lemma_value_exceeds(d, (i + 1 - start) as int);
                }
                return None;
            },
            Some(m) => match m.checked_add(v) {
                None => {
                    proof {
                        lemma_value_exceeds(d, (i + 1 - start) as int);
                    }
                    return None;
                },
                Some(next) => {
                    acc = next;
                },
            },
        }
        i = i + 1;
    }
    assert(d.take(n - start) =~= d);
    Some(acc)
}

/// A prefix of digits too large for a `usize` leaves the whole text unparsable.
proof fn lemma_value_exceeds(d: Seq<char>, k: int)
    requires
        0 < k <= d.len(),
        forall|j: int| 0 <= j < k ==> #[trigger] is_digit(d[j]),
        digits_value(d.take(k)) > usize::MAX,
    ensures
        !((forall|i: int| 0 <= i < d.len() ==> #[trigger] is_digit(d[i])) && digits_value(d)
            <= usize::MAX),
{
    if forall|i: int| 0 <= i < d.len() ==> #[trigger] is_digit(d[i]) {
        lemma_digits_value_grows(d, k);
    }
}

/// The digit character of `d` is a digit worth `d`.
proof fn lemma_digit_char(d: nat)
    requires
        d < 10,
    ensures
        is_digit(digit_char(d)),
        digit_value(digit_char(d)) == d,
{
}

/// Decimal text is a non-empty run of digits worth its number.
pub proof fn lemma_decimal(n: nat)
    ensures
        decimal(n).len() >= 1,
        forall|i: int| 0 <= i < decimal(n).len() ==> #[trigger] is_digit(decimal(n)[i]),
        digits_value(decimal(n)) == n,
    decreases n,
{
    if n < 10 {
        assert(decimal(n).drop_last() =~= Seq::<char>::empty());
        lemma_digit_char(n);
        assert(digits_value(decimal(n)) == digits_value(Seq::<char>::empty()) * 10 + digit_value(digit_char(n)));
    } else {
        lemma_decimal(n / 10);
        lemma_digit_char(n % 10);
        let t = decimal(n / 10);
        assert(decimal(n).drop_last() =~= t);
        assert(decimal(n).last() == digit_char(n % 10));
        assert((n / 10) * 10 + n % 10 == n);
        assert(digits_value(decimal(n)) == digits_value(t) * 10 + digit_value(digit_char(n % 10)));
        assert forall|i: int| 0 <= i < decimal(n).len() implies #[trigger] is_digit(decimal(n)[i]) by {
            if i < t.len() {
                assert(decimal(n)[i] == t[i]);
            }
        }
    }
}

/// `str::parse::<usize>` reads back what `push_decimal` writes.
pub proof fn lemma_parse_decimal(n: usize)
    ensures
        spec_parse_usize(decimal(n as nat)) == Some(n),
{
    lemma_decimal(n as nat);
    let d = decimal(n as nat);
    assert(is_digit(d[0]));
    assert(unsigned_digits(d) == d);
}

/// Appending text free of `c` adds no occurrence of `c`.
pub proof fn lemma_occurrences_append_free(x: Seq<char>, y: Seq<char>, c: char)
    requires
        forall|i: int| 0 <= i < y.len() ==> y[i] != c,
    ensures
        occurrences(x + y, c) == occurrences(x, c),
    decreases y.len(),
{
    if y.len() == 0 {
        assert(x + y =~= x);
    } else {
        let z = y.drop_last();
        assert((x + y).drop_last() =~= x + z);
        assert((x + y).last() == y.last());
        lemma_occurrences_append_free(x, z, c);
    }
}

/// Appending `c` adds one occurrence, at the end.
pub proof fn lemma_occurrences_append_sep(x: Seq<char>, c: char)
    ensures
        occurrences(x + seq![c], c) == occurrences(x, c).push(x.len() as int),
{
    assert((x + seq![c]).drop_last() =~= x);
}

// ── quoting ──────────────────────────────────────────────────────────────────

/// The text that `{:?}` writes for a string: the string in double quotes, with
/// quotes, backslashes and unprintable characters escaped.
pub uninterp spec fn debug_quoted(s: Seq<char>) -> Seq<char>;

/// Writes `s` as `format!("{:?}", s)` does, through `<str as Debug>::fmt`.
#[verifier::external_body]
pub(crate) fn debug_str(s: &str) -> (r: String)
    ensures
        r@ == debug_quoted(s@),
{
    format!("{:?}", s)
}

} // verus!
