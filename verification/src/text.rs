//! Text as sequences of characters.
use vstd::prelude::*;
use vstd::string::*;

verus! {

/// `String::push`: the character is appended at the end of the text.
pub assume_specification[ String::push ](s: &mut String, c: char)
    ensures
        final(s)@ == old(s)@.push(c),
;

/// The characters of `s`, in order.
pub fn chars_of(s: &str) -> (r: Vec<char>)
    ensures
        r@ == s@,
{
    let mut r: Vec<char> = Vec::new();
    for c in it: s.chars()
        invariant
            r@ == it.seq().take(it.index()),
            it.seq() == s@,
    {
        r.push(c);
    }
    r
}

/// The value of the digit `c` in the given radix, letters in either case.
pub open spec fn digit_value(c: char, radix: int) -> Option<int> {
    let value = if '0' <= c <= '9' {
        c as int - 48
    } else if 'a' <= c <= 'z' {
        c as int - 87
    } else if 'A' <= c <= 'Z' {
        c as int - 55
    } else {
        radix
    };
    if value < radix {
        Some(value)
    } else {
        None
    }
}

/// Whether `s` is made of digits alone.
pub open spec fn all_digits(s: Seq<char>, radix: int) -> bool {
    forall|i: int| 0 <= i < s.len() ==> digit_value(#[trigger] s[i], radix) is Some
}

/// The number that the digits of `s` write out.
pub open spec fn magnitude(s: Seq<char>, radix: int) -> int
    decreases s.len(),
{
    if s.len() == 0 {
        0
    } else {
        radix * magnitude(s.drop_last(), radix) + digit_value(s.last(), radix)->0
    }
}

/// Whether `s` begins with a sign.
pub open spec fn is_signed(s: Seq<char>) -> bool {
    s.len() > 0 && (s[0] == '+' || s[0] == '-')
}

/// The integer that `s` writes out: a sign or none, then one digit or more.
pub open spec fn integer_of(s: Seq<char>, radix: int) -> Option<int> {
    let digits = if is_signed(s) {
        s.skip(1)
    } else {
        s
    };
    if digits.len() == 0 || !all_digits(digits, radix) {
        None
    } else if s[0] == '-' {
        Some(-magnitude(digits, radix))
    } else {
        Some(magnitude(digits, radix))
    }
}

/// The integer that `s` writes out, if it is in the range of `i64`.
pub open spec fn i64_text(s: Seq<char>, radix: int) -> Option<i64> {
    match integer_of(s, radix) {
        Some(n) if i64::MIN <= n <= i64::MAX => Some(n as i64),
        _ => None,
    }
}

fn digit_of(c: char, radix: u32) -> (r: Option<u32>)
    requires
        radix == 10 || radix == 16,
    ensures
        match r {
            Some(d) => digit_value(c, radix as int) == Some(d as int),
            None => digit_value(c, radix as int) is None,
        },
{
    let value: u32 = if '0' <= c && c <= '9' {
        c as u32 - 48
    } else if 'a' <= c && c <= 'z' {
        c as u32 - 87
    } else if 'A' <= c && c <= 'Z' {
        c as u32 - 55
    } else {
        radix
    };
    if value < radix {
        Some(value)
    } else {
        None
    }
}

/// The integer that `chars` write out in the given radix: a sign or none,
/// then one digit or more. There is none outside the range of `i64`.
pub fn parse_i64(chars: &[char], radix: u32) -> (r: Option<i64>)
    requires
        radix == 10 || radix == 16,
    ensures
        r == i64_text(chars@, radix as int),
{
    let start: usize = if chars.len() > 0 && (chars[0] == '+' || chars[0] == '-') {
        1
    } else {
        0
    };
    let ghost digits = chars@.skip(start as int);
    if start == chars.len() {
        return None;
    }
    proof {
        assert(start == 0 ==> digits == chars@);
    }
    // The magnitude so far, as long as it is at most that of the least `i64`.
    let mut size: Option<u64> = Some(0);
    let mut i: usize = start;
    while i < chars.len()
        invariant
            radix == 10 || radix == 16,
            start <= i <= chars@.len(),
            start == (if is_signed(chars@) { 1int } else { 0 }),
            digits == (if is_signed(chars@) { chars@.skip(1) } else { chars@ }),
            all_digits(digits.take(i - start), radix as int),
            match size {
                Some(m) => m == magnitude(digits.take(i - start), radix as int) && m
                    <= 0x8000_0000_0000_0000,
                None => magnitude(digits.take(i - start), radix as int) > 0x8000_0000_0000_0000,
            },
        decreases chars@.len() - i,
    {
        let ghost before = digits.take(i - start);
        let ghost after = digits.take(i + 1 - start);
        proof {
            assert(after.drop_last() == before);
            assert(after.last() == chars@[i as int]);
        }
        match digit_of(chars[i], radix) {
            None => {
                assert(digits[i - start] == chars@[i as int]);
                assert(!all_digits(digits, radix as int));
                return None;
            },
            Some(d) => {
                size = match size {
                    Some(m) => {
                        let next: u128 = (if radix == 10 {
                            m as u128 * 10
                        } else {
                            m as u128 * 16
                        }) + d as u128;
                        if next <= 0x8000_0000_0000_0000 {
                            Some(next as u64)
                        } else {
                            None
                        }
                    },
                    None => None,
                };
                assert forall|k: int| 0 <= k < after.len() implies digit_value(
                    #[trigger] after[k],
                    radix as int,
                ) is Some by {
                    if k < before.len() {
                        assert(before[k] == after[k]);
                    }
                }
            },
        }
        i += 1;
    }
    proof {
        assert(digits.take(i - start) == digits);
    }
    match size {
        Some(m) => if chars[0] == '-' {
            if m == 0x8000_0000_0000_0000 {
                Some(i64::MIN)
            } else {
                Some(-(m as i64))
            }
        } else if m < 0x8000_0000_0000_0000 {
            Some(m as i64)
        } else {
            None
        },
        None => None,
    }
}

/// The digits of `n` in base ten.
pub open spec fn decimal_digits(n: nat) -> Seq<char>
    decreases n,
{
    if n < 10 {
        seq![(48 + n) as char]
    } else {
        decimal_digits(n / 10).push((48 + n % 10) as char)
    }
}

/// `n` in base ten, with a sign where it is negative.
pub open spec fn decimal(n: int) -> Seq<char> {
    if n < 0 {
        seq!['-'] + decimal_digits((-n) as nat)
    } else {
        decimal_digits(n as nat)
    }
}

fn push_digits(s: &mut String, n: u64)
    ensures
        final(s)@ == old(s)@ + decimal_digits(n as nat),
    decreases n,
{
    if n >= 10 {
        push_digits(s, n / 10);
    }
    s.push((48 + (n % 10) as u8) as char);
    assert(s@ =~= old(s)@ + decimal_digits(n as nat));
}

/// `n` in base ten, with a sign where it is negative.
pub fn decimal_text(n: i64) -> (r: String)
    ensures
        r@ == decimal(n as int),
{
    let mut r = String::new();
    if n < 0 {
        r.push('-');
        if n == i64::MIN {
            push_digits(&mut r, 0x8000_0000_0000_0000);
        } else {
            push_digits(&mut r, (-n) as u64);
        }
    } else {
        push_digits(&mut r, n as u64);
    }
    assert(r@ =~= decimal(n as int));
    r
}

proof fn lemma_decimal_digits(n: nat)
    ensures
        decimal_digits(n).len() > 0,
        '0' <= decimal_digits(n)[0] <= '9',
        all_digits(decimal_digits(n), 10),
        magnitude(decimal_digits(n), 10) == n,
    decreases n,
{
    let digits = decimal_digits(n);
    if n < 10 {
        reveal_with_fuel(magnitude, 2);
    } else {
        lemma_decimal_digits(n / 10);
        let front = decimal_digits(n / 10);
        assert(digits.drop_last() =~= front);
        assert forall|i: int| 0 <= i < digits.len() implies digit_value(#[trigger] digits[i], 10) is Some by {
            if i < front.len() {
                assert(digits[i] == front[i]);
            }
        }
    }
}

/// An integer that was written in base ten is read back.
pub proof fn law_decimal_read_back(n: i64)
    ensures
        i64_text(decimal(n as int), 10) == Some(n),
{
    if n < 0 {
        let digits = decimal_digits((-n) as nat);
        lemma_decimal_digits((-n) as nat);
        assert(decimal(n as int).skip(1) =~= digits);
    } else {
        lemma_decimal_digits(n as nat);
    }
}

/// Whether `c` is the digit for `d`: one of `0` to `9`, or a letter from `a` on
/// in either case.
pub open spec fn is_digit_for(c: char, d: int) -> bool {
    ||| 0 <= d <= 9 && c as int == '0' as int + d
    ||| 10 <= d <= 35 && c as int == 'a' as int + d - 10
    ||| 10 <= d <= 35 && c as int == 'A' as int + d - 10
}

proof fn lemma_digit(c: char, d: int, radix: int)
    requires
        radix == 10 || radix == 16,
        0 <= d < radix,
    ensures
        is_digit_for(c, d) <==> digit_value(c, radix) == Some(d),
{
}

proof fn lemma_magnitude_pushed(digits: Seq<char>, c: char, radix: int)
    requires
        radix == 10 || radix == 16,
    ensures
        magnitude(digits.push(c), radix) == radix * magnitude(digits, radix) + digit_value(
            c,
            radix,
        )->0,
        all_digits(digits.push(c), radix) <==> all_digits(digits, radix) && digit_value(
            c,
            radix,
        ) is Some,
{
    let more = digits.push(c);
    assert(more.drop_last() =~= digits);
    if all_digits(more, radix) {
        assert forall|i: int| 0 <= i < digits.len() implies digit_value(#[trigger] digits[i], radix) is Some by {
            assert(more[i] == digits[i]);
        }
        assert(digit_value(more[digits.len() as int], radix) is Some);
    }
    if all_digits(digits, radix) && digit_value(c, radix) is Some {
        assert forall|i: int| 0 <= i < more.len() implies digit_value(#[trigger] more[i], radix) is Some by {
            if i < digits.len() {
                assert(more[i] == digits[i]);
            }
        }
    }
}

proof fn lemma_magnitude_positive(digits: Seq<char>, radix: int)
    requires
        radix == 10 || radix == 16,
        all_digits(digits, radix),
    ensures
        magnitude(digits, radix) >= 0,
    decreases digits.len(),
{
    if digits.len() > 0 {
        let front = digits.drop_last();
        assert forall|i: int| 0 <= i < front.len() implies digit_value(#[trigger] front[i], radix) is Some by {
            assert(front[i] == digits[i]);
        }
        assert(digits[digits.len() - 1] == digits.last());
        lemma_magnitude_positive(front, radix);
    }
}

/// An integer in one digit, behind a sign or none, is that digit; nothing is
/// read in an empty text nor in a sign alone.
pub proof fn law_one_digit(c: char, d: int, radix: int)
    requires
        radix == 10 || radix == 16,
        0 <= d < radix,
        is_digit_for(c, d),
    ensures
        i64_text(seq![c], radix) == Some(d as i64),
        i64_text(seq!['+', c], radix) == Some(d as i64),
        i64_text(seq!['-', c], radix) == Some((-d) as i64),
        i64_text(Seq::empty(), radix) is None,
        i64_text(seq!['+'], radix) is None,
        i64_text(seq!['-'], radix) is None,
{
    lemma_digit(c, d, radix);
    let none: Seq<char> = Seq::empty();
    lemma_magnitude_pushed(none, c, radix);
    assert(none.push(c) =~= seq![c]);
    assert(seq!['+', c].skip(1) =~= seq![c]);
    assert(seq!['-', c].skip(1) =~= seq![c]);
    assert(seq!['+'].skip(1) =~= none);
    assert(seq!['-'].skip(1) =~= none);
}

/// One digit more behind an integer makes it as many times as large as the
/// radix says and adds the digit, or takes it off a negative one. What is no
/// digit, or leads out of the range of `i64`, makes it unreadable, and nothing
/// behind it mends that.
pub proof fn law_one_more_digit(s: Seq<char>, c: char, d: int, radix: int)
    requires
        radix == 10 || radix == 16,
        s.len() > 0,
        !(s.len() == 1 && (s[0] == '+' || s[0] == '-')),
    ensures
        i64_text(s, radix) is None ==> i64_text(s.push(c), radix) is None,
        (forall|e: int| 0 <= e < radix ==> !#[trigger] is_digit_for(c, e)) ==> i64_text(
            s.push(c),
            radix,
        ) is None,
        0 <= d < radix && is_digit_for(c, d) && i64_text(s, radix) is Some ==> ({
            let n = i64_text(s, radix)->0;
            let m = if s[0] == '-' {
                radix * n - d
            } else {
                radix * n + d
            };
            i64_text(s.push(c), radix) == (if i64::MIN <= m <= i64::MAX {
                Some(m as i64)
            } else {
                None
            })
        }),
{
    let more = s.push(c);
    let digits = if is_signed(s) {
        s.skip(1)
    } else {
        s
    };
    let more_digits = if is_signed(more) {
        more.skip(1)
    } else {
        more
    };
    assert(more[0] == s[0]);
    assert(more_digits =~= digits.push(c));
    lemma_magnitude_pushed(digits, c, radix);
    if all_digits(digits, radix) {
        lemma_magnitude_positive(digits, radix);
    }
    if 0 <= d < radix {
        lemma_digit(c, d, radix);
    }
    if digit_value(c, radix) is Some {
        let e = digit_value(c, radix)->0;
        lemma_digit(c, e, radix);
        assert(is_digit_for(c, e));
    }
}

/// An integer is written without a plus sign and without zeros in front, and a
/// negative one as its opposite behind a minus sign.
pub proof fn law_decimal_is_plain(n: int)
    ensures
        n < 0 ==> decimal(n) == seq!['-'] + decimal(-n),
        n >= 0 ==> decimal(n).len() > 0 && '0' <= decimal(n)[0] <= '9',
        n > 0 ==> decimal(n)[0] != '0',
        n == 0 ==> decimal(n) == seq!['0'],
{
    if n >= 0 {
        lemma_decimal_digits(n as nat);
        if n > 0 {
            lemma_no_zero_in_front(n as nat);
        }
    }
}

proof fn lemma_no_zero_in_front(n: nat)
    requires
        n > 0,
    ensures
        decimal_digits(n).len() > 0,
        decimal_digits(n)[0] != '0',
    decreases n,
{
    if n >= 10 {
        lemma_no_zero_in_front(n / 10);
    }
}

} // verus!
