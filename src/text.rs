use vstd::prelude::*;

verus! {

/// The character of the decimal digit `d` (for `d < 10`).
pub open spec fn digit_char(d: nat) -> char {
    ((d + 48) as u8) as char
}

pub open spec fn is_digit(c: char) -> bool {
    '0' <= c <= '9'
}

pub open spec fn digit_value(c: char) -> nat {
    (c as u32 - '0' as u32) as nat
}

pub open spec fn all_digits(s: Seq<char>) -> bool {
    forall|i: int| 0 <= i < s.len() ==> is_digit(#[trigger] s[i])
}

/// The number that a run of decimal digits spells, most significant first.
pub open spec fn digits_value(s: Seq<char>) -> nat
    decreases s.len(),
{
    if s.len() == 0 {
        0
    } else {
        digits_value(s.drop_last()) * 10 + digit_value(s.last())
    }
}

/// The decimal text of `n`, without leading zeros.
pub open spec fn decimal(n: nat) -> Seq<char>
    decreases n,
{
    if n < 10 {
        seq![digit_char(n)]
    } else {
        decimal(n / 10).push(digit_char(n % 10))
    }
}

/// The decimal text of `n`, padded with a leading zero to at least two
/// digits.
pub open spec fn two_digits(n: nat) -> Seq<char> {
    if n < 10 {
        seq!['0'] + decimal(n)
    } else {
        decimal(n)
    }
}

pub proof fn lemma_digit_char(d: nat)
    requires
        d < 10,
    ensures
        is_digit(digit_char(d)),
        digit_value(digit_char(d)) == d,
{
}

pub proof fn lemma_decimal(n: nat)
    ensures
        all_digits(decimal(n)),
        digits_value(decimal(n)) == n,
        1 <= decimal(n).len(),
        n < 10 ==> decimal(n).len() == 1,
        n < 100 ==> decimal(n).len() <= 2,
    decreases n,
{
    lemma_digit_char(n % 10);
    if n < 10 {
        assert(decimal(n).drop_last() =~= Seq::<char>::empty());
        assert(digits_value(Seq::<char>::empty()) == 0);
        assert(n % 10 == n);
    } else {
        lemma_decimal(n / 10);
        assert(decimal(n).drop_last() =~= decimal(n / 10));
        assert(decimal(n).last() == digit_char(n % 10));
        assert(digits_value(decimal(n)) == digits_value(decimal(n / 10)) * 10 + n % 10);
    }
}

pub proof fn lemma_two_digits(n: nat)
    requires
        n < 100,
    ensures
        all_digits(two_digits(n)),
        digits_value(two_digits(n)) == n,
        two_digits(n).len() == 2,
{
    lemma_decimal(n);
    let s = two_digits(n);
    if n < 10 {
        assert(s =~= seq!['0', digit_char(n)]);
        assert(s.drop_last() =~= seq!['0']);
        assert(s.drop_last().drop_last() =~= Seq::<char>::empty());
        assert(digit_value('0') == 0);
        assert(digits_value(s.drop_last()) == digits_value(s.drop_last().drop_last()) * 10
            + digit_value('0'));
    } else {
        assert(n / 10 < 10);
        assert(decimal(n / 10) =~= seq![digit_char(n / 10)]);
    }
}

/// A longer run of digits never spells a smaller number.
pub proof fn lemma_digits_value_prefix(s: Seq<char>, k: int)
    requires
        all_digits(s),
        0 <= k <= s.len(),
    ensures
        digits_value(s.take(k)) <= digits_value(s),
    decreases s.len(),
{
    if k < s.len() {
        assert(s.drop_last().take(k) =~= s.take(k));
        lemma_digits_value_prefix(s.drop_last(), k);
    } else {
        assert(s.take(k) =~= s);
    }
}

/// Relies on `String::push`: appends one character at the end.
#[verifier::external_body]
pub(crate) fn push_char(s: &mut String, c: char)
    ensures
        final(s)@ == old(s)@.push(c),
{
    s.push(c);
}

/// The characters of `s`, in order.
pub(crate) fn chars_of(s: &str) -> (r: Vec<char>)
    ensures
        r@ == s@,
{
    let mut r: Vec<char> = Vec::new();
    for c in it: s.chars()
        invariant
            r@ == it.seq().take(it.index() as int),
    {
        r.push(c);
    }
    r
}

/// Appends the characters `cs[lo..hi]` to `out`.
pub(crate) fn push_range(out: &mut String, cs: &Vec<char>, lo: usize, hi: usize)
    requires
        lo <= hi <= cs@.len(),
    ensures
        final(out)@ == old(out)@ + cs@.subrange(lo as int, hi as int),
{
    let mut i = lo;
    while i < hi
        invariant
            lo <= i <= hi <= cs@.len(),
            out@ == old(out)@ + cs@.subrange(lo as int, i as int),
        decreases hi - i,
    {
        push_char(out, cs[i]);
        assert(cs@.subrange(lo as int, i + 1) =~= cs@.subrange(lo as int, i as int).push(
            cs@[i as int],
        ));
        i = i + 1;
    }
}

/// Appends all of `cs` to `out`.
pub(crate) fn push_chars(out: &mut String, cs: &Vec<char>)
    ensures
        final(out)@ == old(out)@ + cs@,
{
    push_range(out, cs, 0, cs.len());
    assert(cs@.subrange(0, cs@.len() as int) =~= cs@);
}

/// Appends the text `s` to `out`.
pub(crate) fn push_str(out: &mut String, s: &str)
    ensures
        final(out)@ == old(out)@ + s@,
{
    let cs = chars_of(s);
    push_chars(out, &cs);
}

/// Appends `n` as decimal text of at least two digits.
pub(crate) fn push_two_digits(out: &mut String, n: u32)
    ensures
        final(out)@ == old(out)@ + two_digits(n as nat),
{
    if n < 10 {
        push_char(out, '0');
    }
    push_chars(out, &decimal_chars(n));
    assert(out@ =~= old(out)@ + two_digits(n as nat));
}

/// The decimal text of `n`.
pub(crate) fn decimal_chars(n: u32) -> (r: Vec<char>)
    ensures
        r@ == decimal(n as nat),
{
    let mut q: u32 = n;
    let mut tail: Vec<char> = Vec::new();
    while q >= 10
        invariant
            decimal(n as nat) == decimal(q as nat) + tail@,
        decreases q,
    {
        let d = q % 10;
        let c = ((d + 48) as u8) as char;
        let ghost prev = tail@;
        assert(decimal(q as nat) == decimal((q / 10) as nat).push(c));
        tail.insert(0, c);
        assert(decimal((q / 10) as nat).push(c) + prev =~= decimal((q / 10) as nat) + tail@);
        q = q / 10;
    }
    let mut r: Vec<char> = Vec::new();
    r.push(((q + 48) as u8) as char);
    r.append(&mut tail);
    r
}

} // verus!
