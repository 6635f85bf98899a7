//! Issue identifiers: a prefix, a hyphen and a number in decimal.

use vstd::prelude::*;
use vstd::string::*;

verus! {

/// The character for a decimal digit.
pub open spec fn digit_char(d: int) -> char {
    if d == 0 {
        '0'
    } else if d == 1 {
        '1'
    } else if d == 2 {
        '2'
    } else if d == 3 {
        '3'
    } else if d == 4 {
        '4'
    } else if d == 5 {
        '5'
    } else if d == 6 {
        '6'
    } else if d == 7 {
        '7'
    } else if d == 8 {
        '8'
    } else {
        '9'
    }
}

/// A natural number written in decimal, without leading zeros.
pub open spec fn decimal(n: nat) -> Seq<char>
    decreases n,
{
    if n < 10 {
        seq![digit_char(n as int)]
    } else {
        decimal(n / 10).push(digit_char((n % 10) as int))
    }
}

/// The identifier with this prefix and number.
pub open spec fn identifier(prefix: Seq<char>, number: nat) -> Seq<char> {
    prefix + seq!['-'] + decimal(number)
}

/// A number written in decimal has at least one character, and none of them
/// is a hyphen.
pub proof fn lemma_decimal_shape(n: nat)
    ensures
        decimal(n).len() >= 1,
        forall|i: int| 0 <= i < decimal(n).len() ==> decimal(n)[i] != '-',
    decreases n,
{
    if n >= 10 {
        lemma_decimal_shape(n / 10);
    }
}

/// Different numbers are written differently.
pub proof fn lemma_decimal_injective(a: nat, b: nat)
    requires
        decimal(a) == decimal(b),
    ensures
        a == b,
    decreases a,
{
    lemma_decimal_shape(a / 10);
    lemma_decimal_shape(b / 10);
    if a < 10 && b < 10 {
        assert(decimal(a) == seq![digit_char(a as int)]);
        assert(decimal(b) == seq![digit_char(b as int)]);
        assert(seq![digit_char(a as int)][0] == seq![digit_char(b as int)][0]);
    } else if a < 10 {
        assert(decimal(b).len() >= 2);
    } else if b < 10 {
        assert(decimal(a).len() >= 2);
    } else {
        let x = decimal(a / 10);
        let y = decimal(b / 10);
        assert(x.push(digit_char((a % 10) as int)).last() == y.push(digit_char((b % 10) as int)).last());
        assert(x.push(digit_char((a % 10) as int)).drop_last() =~= x);
        assert(y.push(digit_char((b % 10) as int)).drop_last() =~= y);
        assert(x == y);
        lemma_decimal_injective(a / 10, b / 10);
        assert(digit_char((a % 10) as int) == digit_char((b % 10) as int));
        assert(a % 10 == b % 10);
        assert(a == 10 * (a / 10) + a % 10);
        assert(b == 10 * (b / 10) + b % 10);
    }
}

/// With one prefix, different numbers give different identifiers.
pub proof fn lemma_identifier_injective(prefix: Seq<char>, a: nat, b: nat)
    requires
        identifier(prefix, a) == identifier(prefix, b),
    ensures
        a == b,
{
    let head = prefix + seq!['-'];
    let x = identifier(prefix, a);
    let y = identifier(prefix, b);
    assert(x.subrange(head.len() as int, x.len() as int) =~= decimal(a));
    assert(y.subrange(head.len() as int, y.len() as int) =~= decimal(b));
    lemma_decimal_injective(a, b);
}

/// The text of one decimal digit.
fn digit_text(d: u64) -> (r: &'static str)
    requires
        d < 10,
    ensures
        r@ == seq![digit_char(d as int)],
{
    proof {
        reveal_strlit("0");
        reveal_strlit("1");
        reveal_strlit("2");
        reveal_strlit("3");
        reveal_strlit("4");
        reveal_strlit("5");
        reveal_strlit("6");
        reveal_strlit("7");
        reveal_strlit("8");
        reveal_strlit("9");
    }
    let r = if d == 0 {
        "0"
    } else if d == 1 {
        "1"
    } else if d == 2 {
        "2"
    } else if d == 3 {
        "3"
    } else if d == 4 {
        "4"
    } else if d == 5 {
        "5"
    } else if d == 6 {
        "6"
    } else if d == 7 {
        "7"
    } else if d == 8 {
        "8"
    } else {
        "9"
    };
    assert(r@ =~= seq![digit_char(d as int)]);
    r
}

/// Appends `n` in decimal to `out`.
fn push_decimal(out: &mut String, n: u64)
    ensures
        final(out)@ == old(out)@ + decimal(n as nat),
    decreases n,
{
    if n >= 10 {
        push_decimal(out, n / 10);
    }
    let d = digit_text(n % 10);
    out.append(d);
    proof {
        if n >= 10 {
            assert(old(out)@ + decimal(n as nat) =~= (old(out)@ + decimal((n / 10) as nat)) + seq![
                digit_char((n % 10) as int),
            ]);
        }
    }
}

/// Writes `number` in decimal.
pub fn format_number(number: u64) -> (r: String)
    ensures
        r@ == decimal(number as nat),
{
    let mut out = String::new();
    push_decimal(&mut out, number);
    assert(Seq::<char>::empty() + decimal(number as nat) =~= decimal(number as nat));
    out
}

/// Writes the identifier with this prefix and number.
pub fn format_identifier(prefix: &str, number: u64) -> (r: String)
    ensures
        r@ == identifier(prefix@, number as nat),
{
    let mut out = prefix.to_owned();
    proof {
        reveal_strlit("-");
    }
    out.append("-");
    assert(out@ =~= prefix@ + seq!['-']);
    push_decimal(&mut out, number);
    out
}

/// The character is a decimal digit.
pub open spec fn is_digit(c: char) -> bool {
    '0' <= c <= '9'
}

/// The number that a run of decimal digits writes; 0 for no digit.
pub open spec fn number_of(digits: Seq<char>) -> nat
    decreases digits.len(),
{
    if digits.len() == 0 {
        0
    } else {
        (10 * number_of(digits.drop_last()) + (digits.last() as int - '0' as int)) as nat
    }
}

/// The place of the first hyphen at or after `from`, or the length of the
/// text if there is none.
pub open spec fn hyphen_at(s: Seq<char>, from: int) -> int
    decreases s.len() - from,
{
    if from < 0 || from >= s.len() {
        s.len() as int
    } else if s[from] == '-' {
        from
    } else {
        hyphen_at(s, from + 1)
    }
}

/// The place of the first character at or after `from` that is no digit, or
/// the length of the text if there is none.
pub open spec fn digits_end(s: Seq<char>, from: int) -> int
    decreases s.len() - from,
{
    if from < 0 || from >= s.len() {
        s.len() as int
    } else if !is_digit(s[from]) {
        from
    } else {
        digits_end(s, from + 1)
    }
}

/// The number that the digits from `from` on write, up to the first
/// character that is no digit; never more than the greatest counter.
pub open spec fn leading_number(s: Seq<char>, from: int) -> int {
    let n = number_of(s.subrange(from, digits_end(s, from)));
    if n > i64::MAX {
        i64::MAX as int
    } else {
        n as int
    }
}

/// The prefix and the number of an identifier: what stands before its first
/// hyphen, and the number that the digits right behind that hyphen write.
/// An identifier without a hyphen has neither.
pub open spec fn identifier_parts(id: Seq<char>) -> Option<(Seq<char>, int)> {
    let h = hyphen_at(id, 0);
    if h >= id.len() {
        None
    } else {
        Some((id.take(h), leading_number(id, h + 1)))
    }
}

/// The first hyphen lies between `from` and the end, with no hyphen before
/// it.
pub proof fn lemma_hyphen_at(s: Seq<char>, from: int)
    requires
        0 <= from <= s.len(),
    ensures
        from <= hyphen_at(s, from) <= s.len(),
        forall|i: int| from <= i < hyphen_at(s, from) ==> s[i] != '-',
        hyphen_at(s, from) < s.len() ==> s[hyphen_at(s, from)] == '-',
    decreases s.len() - from,
{
    if from < s.len() && s[from] != '-' {
        lemma_hyphen_at(s, from + 1);
    }
}

/// The digits end between `from` and the end, with only digits before.
pub proof fn lemma_digits_end(s: Seq<char>, from: int)
    requires
        0 <= from <= s.len(),
    ensures
        from <= digits_end(s, from) <= s.len(),
        forall|i: int| from <= i < digits_end(s, from) ==> is_digit(s[i]),
        digits_end(s, from) < s.len() ==> !is_digit(s[digits_end(s, from)]),
    decreases s.len() - from,
{
    if from < s.len() && is_digit(s[from]) {
        lemma_digits_end(s, from + 1);
    }
}

/// A number written in decimal consists of digits and writes that number.
pub proof fn lemma_decimal_reads_back(n: nat)
    ensures
        number_of(decimal(n)) == n,
        forall|i: int| 0 <= i < decimal(n).len() ==> is_digit(#[trigger] decimal(n)[i]),
    decreases n,
{
    if n < 10 {
        assert(decimal(n) == seq![digit_char(n as int)]);
        assert(decimal(n).drop_last() =~= Seq::<char>::empty());
        assert(number_of(decimal(n).drop_last()) == 0);
    } else {
        lemma_decimal_reads_back(n / 10);
        let d = digit_char((n % 10) as int);
        assert(decimal(n).drop_last() =~= decimal(n / 10));
        assert(decimal(n).last() == d);
        assert(d as int - '0' as int == n % 10);
    }
}

/// An identifier made of a prefix without a hyphen and a number falls apart
/// into that prefix and that number.
pub proof fn lemma_identifier_parts(prefix: Seq<char>, n: nat)
    requires
        forall|i: int| 0 <= i < prefix.len() ==> prefix[i] != '-',
        n <= i64::MAX,
    ensures
        identifier_parts(identifier(prefix, n)) == Some((prefix, n as int)),
{
    let id = identifier(prefix, n);
    let h = prefix.len() as int;
    lemma_decimal_shape(n);
    lemma_decimal_reads_back(n);
    lemma_hyphen_at(id, 0);
    assert(id[h] == '-');
    assert forall|i: int| 0 <= i < h implies id[i] != '-' by {
        assert(id[i] == prefix[i]);
    }
    assert(hyphen_at(id, 0) == h) by {
        if hyphen_at(id, 0) < h {
        } else if hyphen_at(id, 0) > h {
        }
    }
    assert(id.take(h) =~= prefix);
    lemma_digits_end(id, h + 1);
    assert forall|i: int| h + 1 <= i < id.len() implies is_digit(id[i]) by {
        assert(id[i] == decimal(n)[i - h - 1]);
    }
    assert(digits_end(id, h + 1) == id.len());
    assert(id.subrange(h + 1, id.len() as int) =~= decimal(n));
}

/// The prefix and the number of an identifier.
pub fn split_identifier(id: &str) -> (r: Option<(String, i64)>)
    ensures
        match r {
            Some((prefix, number)) => identifier_parts(id@) == Some((prefix@, number as int)),
            None => identifier_parts(id@) is None,
        },
{
    let n = id.unicode_len();
    let mut h: usize = 0;
    while h < n && id.get_char(h) != '-'
        invariant
            h <= n,
            n == id@.len(),
            hyphen_at(id@, 0) == hyphen_at(id@, h as int),
        decreases n - h,
    {
        h += 1;
    }
    if h >= n {
        return None;
    }
    let prefix = id.substring_char(0, h);
    assert(prefix@ =~= id@.take(h as int));
    let start = h + 1;
    let mut i: usize = start;
    let mut value: i64 = 0;
    assert(id@.subrange(start as int, start as int) =~= Seq::<char>::empty());
    while i < n && is_decimal_digit(id.get_char(i))
        invariant
            start <= i <= n,
            n == id@.len(),
            digits_end(id@, start as int) == digits_end(id@, i as int),
            0 <= value,
            value == if number_of(id@.subrange(start as int, i as int)) > i64::MAX {
                i64::MAX as int
            } else {
                number_of(id@.subrange(start as int, i as int)) as int
            },
        decreases n - i,
    {
        let c = id.get_char(i);
        let d: i64 = (c as u32 - '0' as u32) as i64;
        proof {
            let run = id@.subrange(start as int, i + 1);
            assert(run.drop_last() =~= id@.subrange(start as int, i as int));
            assert(run.last() == c);
            assert(d == c as int - '0' as int);
        }
        if value > (i64::MAX - d) / 10 {
            value = i64::MAX;
        } else {
            value = value * 10 + d;
        }
        i += 1;
    }
    Some((prefix.to_owned(), value))
}

/// Whether the character is a decimal digit.
fn is_decimal_digit(c: char) -> (r: bool)
    ensures
        r == is_digit(c),
{
    c >= '0' && c <= '9'
}

/// The number of an identifier is never negative and never more than the
/// greatest counter.
pub proof fn lemma_leading_number_bounds(id: Seq<char>)
    ensures
        identifier_parts(id) matches Some((p, n)) ==> 0 <= n <= i64::MAX,
{
}

} // verus!
