//! Whole numbers as decimal text.

use vstd::prelude::*;
use vstd::string::*;

verus! {

/// Calls `String::push`, which puts a character at the end.
pub assume_specification[ String::push ](s: &mut String, c: char)
    ensures
        final(s)@ == old(s)@.push(c),
;

/// The characters of some text.
pub fn char_vec(s: &str) -> (r: Vec<char>)
    ensures
        r@ == s@,
{
    broadcast use group_string_axioms;

    let mut r: Vec<char> = Vec::new();
    for c in it: s.chars()
        invariant
            it.seq() == s@,
            r@ == s@.take(it.index() as int),
    {
        r.push(c);
    }
    assert(s@.take(s@.len() as int) =~= s@);
    r
}

/// Put some characters at the end of a text.
pub fn push_chars(out: &mut String, chars: &Vec<char>)
    ensures
        final(out)@ == old(out)@ + chars@,
{
    let ghost start = out@;
    let mut i: usize = 0;
    assert(start + chars@.take(0) =~= start);
    while i < chars.len()
        invariant
            i <= chars@.len(),
            out@ == start + chars@.take(i as int),
        decreases chars@.len() - i,
    {
        out.push(chars[i]);
        assert(start + chars@.take(i + 1) =~= (start + chars@.take(i as int)).push(
            chars@[i as int],
        ));
        i = i + 1;
    }
    assert(chars@.take(i as int) =~= chars@);
}

/// Put a text at the end of another.
pub fn push_text(out: &mut String, more: &str)
    ensures
        final(out)@ == old(out)@ + more@,
{
    let chars = char_vec(more);
    push_chars(out, &chars);
}

pub open spec fn is_digit(c: char) -> bool {
    '0' <= c <= '9'
}

pub open spec fn all_digits(s: Seq<char>) -> bool {
    forall|i: int| 0 <= i < s.len() ==> is_digit(#[trigger] s[i])
}

/// The value of some digits.
pub open spec fn value(s: Seq<char>) -> nat
    decreases s.len(),
{
    if s.len() == 0 {
        0
    } else {
        (value(s.drop_last()) * 10 + (s.last() as int - '0' as int)) as nat
    }
}

/// The digits of a number, without leading zeros.
pub open spec fn digits(n: nat) -> Seq<char>
    decreases n,
{
    let last = (n % 10 + '0' as nat) as char;
    if n < 10 {
        seq![last]
    } else {
        digits(n / 10).push(last)
    }
}

/// A whole number as text.
pub open spec fn int_text(n: int) -> Seq<char> {
    if n < 0 {
        seq!['-'] + digits((-n) as nat)
    } else {
        digits(n as nat)
    }
}

/// The number that a text stands for: digits, with or without a sign, where a
/// minus sign is taken only if `signed`. Nothing where the text is anything else,
/// or the number is not between the bounds.
pub open spec fn number(s: Seq<char>, signed: bool, min: int, max: int) -> Option<int> {
    let negative = signed && s.len() > 0 && s[0] == '-';
    let body = if negative || (s.len() > 0 && s[0] == '+') {
        s.skip(1)
    } else {
        s
    };
    let n = if negative {
        -(value(body) as int)
    } else {
        value(body) as int
    };
    if body.len() == 0 || !all_digits(body) || n < min || n > max {
        None
    } else {
        Some(n)
    }
}

proof fn lemma_value_grows(s: Seq<char>, n: int)
    requires
        0 <= n <= s.len(),
        all_digits(s),
    ensures
        value(s.take(n)) <= value(s),
    decreases s.len(),
{
    if n == s.len() {
        assert(s.take(n) =~= s);
    } else {
        lemma_value_grows(s.drop_last(), n);
        assert(s.drop_last().take(n) =~= s.take(n));
    }
}

/// The value of some digits, if it is at most the limit.
fn parse_digits(chars: &Vec<char>, from: usize, to: usize, limit: u64) -> (r: Option<u64>)
    requires
        from <= to <= chars@.len(),
    ensures
        ({
            let body = chars@.subrange(from as int, to as int);
            match r {
                Some(n) => from < to && all_digits(body) && n == value(body) && n <= limit,
                None => from == to || !all_digits(body) || value(body) > limit,
            }
        }),
{
    let ghost body = chars@.subrange(from as int, to as int);
    if from == to {
        return None;
    }
    let mut i: usize = from;
    let mut n: u64 = 0;
    assert(body.take(0) =~= Seq::<char>::empty());
    while i < to
        invariant
            from <= i <= to <= chars@.len(),
            body == chars@.subrange(from as int, to as int),
            forall|j: int| 0 <= j < i - from ==> is_digit(#[trigger] body[j]),
            n == value(body.take(i - from)),
            n <= limit,
        decreases to - i,
    {
        let c = chars[i];
        assert(body[i - from] == c);
        if c < '0' || c > '9' {
            return None;
        }
        let d: u128 = (c as u32 - '0' as u32) as u128;
        let next: u128 = n as u128 * 10 + d;
        assert(body.take(i - from + 1).drop_last() =~= body.take(i - from));
        assert(body.take(i - from + 1).last() == c);
        if next > limit as u128 {
            proof {
                if all_digits(body) {
                    lemma_value_grows(body, i - from + 1);
                }
            }
            return None;
        }
        n = next as u64;
        i = i + 1;
    }
    assert(body.take(to - from) =~= body);
    Some(n)
}

/// A 64-bit number from part of a text.
pub fn parse_i64(chars: &Vec<char>, from: usize, to: usize) -> (r: Option<i64>)
    requires
        from <= to <= chars@.len(),
    ensures
        r == match number(
            chars@.subrange(from as int, to as int),
            true,
            i64::MIN as int,
            i64::MAX as int,
        ) {
            Some(n) => Some(n as i64),
            None => None,
        },
{
    let ghost s = chars@.subrange(from as int, to as int);
    if from < to && chars[from] == '-' {
        assert(s[0] == '-');
        assert(s.skip(1) =~= chars@.subrange(from + 1, to as int));
        match parse_digits(chars, from + 1, to, 0x8000_0000_0000_0000) {
            Some(n) => if n == 0x8000_0000_0000_0000 {
                Some(i64::MIN)
            } else {
                Some(-(n as i64))
            },
            None => None,
        }
    } else {
        let start = if from < to && chars[from] == '+' {
            assert(s.skip(1) =~= chars@.subrange(from + 1, to as int));
            from + 1
        } else {
            from
        };
        match parse_digits(chars, start, to, 0x7fff_ffff_ffff_ffff) {
            Some(n) => Some(n as i64),
            None => None,
        }
    }
}

/// An unsigned number of at most the limit from part of a text.
pub fn parse_unsigned(chars: &Vec<char>, from: usize, to: usize, limit: u64) -> (r: Option<u64>)
    requires
        from <= to <= chars@.len(),
    ensures
        r == match number(chars@.subrange(from as int, to as int), false, 0, limit as int) {
            Some(n) => Some(n as u64),
            None => None,
        },
{
    let ghost s = chars@.subrange(from as int, to as int);
    let start = if from < to && chars[from] == '+' {
        assert(s.skip(1) =~= chars@.subrange(from + 1, to as int));
        from + 1
    } else {
        from
    };
    parse_digits(chars, start, to, limit)
}

/// Put the digits of a number at the end of a text.
pub fn push_digits(out: &mut String, n: u64)
    ensures
        final(out)@ == old(out)@ + digits(n as nat),
    decreases n,
{
    let ghost start = out@;
    if n >= 10 {
        push_digits(out, n / 10);
    }
    let last = (48u8 + (n % 10) as u8) as char;
    out.push(last);
    assert(out@ =~= start + digits(n as nat));
}

/// Put a number at the end of a text.
pub fn push_int(out: &mut String, n: i64)
    ensures
        final(out)@ == old(out)@ + int_text(n as int),
{
    let ghost start = out@;
    if n < 0 {
        out.push('-');
        let magnitude: u64 = if n == i64::MIN {
            0x8000_0000_0000_0000
        } else {
            (-n) as u64
        };
        push_digits(out, magnitude);
        assert(out@ =~= start + int_text(n as int));
    } else {
        push_digits(out, n as u64);
    }
}

/// The digits of a number are digits, and have its value.
pub proof fn lemma_digits(n: nat)
    ensures
        digits(n).len() > 0,
        all_digits(digits(n)),
        value(digits(n)) == n,
    decreases n,
{
    let last = (n % 10 + '0' as nat) as char;
    assert('0' as nat == 48);
    assert(is_digit(last) && last as int - '0' as int == n % 10);
    if n < 10 {
        assert(digits(n).drop_last() =~= Seq::<char>::empty());
        assert(value(Seq::<char>::empty()) == 0);
    } else {
        lemma_digits(n / 10);
        assert(digits(n).drop_last() =~= digits(n / 10));
    }
}

/// What is written as text is read back as it was.
pub proof fn lemma_number_of_text(n: int, min: int, max: int)
    requires
        min <= n <= max,
    ensures
        number(int_text(n), true, min, max) == Some(n),
        n >= 0 ==> number(int_text(n), false, min, max) == Some(n),
{
    if n < 0 {
        lemma_digits((-n) as nat);
        assert(int_text(n).skip(1) =~= digits((-n) as nat));
    } else {
        lemma_digits(n as nat);
        let s = digits(n as nat);
        assert(is_digit(s[0]));
    }
}

/// White space: in ASCII, a space, a tab, or anything that ends a line or a page, and
/// beyond it what Unicode counts as such.
pub open spec fn is_space(c: char) -> bool {
    let n = c as u32;
    ||| c == ' '
    ||| 0x9 <= n <= 0xd
    ||| n == 0x85
    ||| n == 0xa0
    ||| n == 0x1680
    ||| 0x2000 <= n <= 0x200a
    ||| n == 0x2028
    ||| n == 0x2029
    ||| n == 0x202f
    ||| n == 0x205f
    ||| n == 0x3000
}

/// Whether a character is white space.
pub fn is_white(c: char) -> (r: bool)
    ensures
        r == is_space(c),
{
    let n: u32 = c as u32;
    c == ' ' || (0x9 <= n && n <= 0xd) || n == 0x85 || n == 0xa0 || n == 0x1680 || (0x2000 <= n
        && n <= 0x200a) || n == 0x2028 || n == 0x2029 || n == 0x202f || n == 0x205f || n == 0x3000
}

/// A text without the white space at its beginning.
pub open spec fn trimmed_front(s: Seq<char>) -> Seq<char>
    decreases s.len(),
{
    if s.len() > 0 && is_space(s[0]) {
        trimmed_front(s.drop_first())
    } else {
        s
    }
}

/// A text without the white space at its end.
pub open spec fn trimmed_back(s: Seq<char>) -> Seq<char>
    decreases s.len(),
{
    if s.len() > 0 && is_space(s.last()) {
        trimmed_back(s.drop_last())
    } else {
        s
    }
}

/// A text without the white space around it.
pub open spec fn trimmed(s: Seq<char>) -> Seq<char> {
    trimmed_back(trimmed_front(s))
}

/// The part of a text without the white space around it.
pub fn trim(chars: &Vec<char>, from: usize, to: usize) -> (r: (usize, usize))
    requires
        from <= to <= chars@.len(),
    ensures
        from <= r.0 <= r.1 <= to,
        chars@.subrange(r.0 as int, r.1 as int) == trimmed(
            chars@.subrange(from as int, to as int),
        ),
{
    let ghost s = chars@.subrange(from as int, to as int);
    let mut start = from;
    while start < to && is_white(chars[start])
        invariant
            from <= start <= to <= chars@.len(),
            trimmed_front(chars@.subrange(start as int, to as int)) == trimmed_front(s),
        decreases to - start,
    {
        assert(chars@.subrange(start as int, to as int).drop_first() =~= chars@.subrange(
            start + 1,
            to as int,
        ));
        start = start + 1;
    }
    let ghost front = chars@.subrange(start as int, to as int);
    assert(front == trimmed_front(s));
    let mut end = to;
    while end > start && is_white(chars[end - 1])
        invariant
            from <= start <= end <= to <= chars@.len(),
            trimmed_back(chars@.subrange(start as int, end as int)) == trimmed_back(front),
        decreases end - start,
    {
        assert(chars@.subrange(start as int, end as int).drop_last() =~= chars@.subrange(
            start as int,
            end - 1,
        ));
        end = end - 1;
    }
    (start, end)
}

/// One digit more makes a number ten times as large and adds the digit; leading zeros
/// count for nothing.
pub proof fn lemma_decimal(s: Seq<char>, c: char)
    ensures
        is_digit(c) ==> value(s.push(c)) == 10 * value(s) + (c as int - '0' as int),
        value(seq!['0'] + s) == value(s),
    decreases s.len(),
{
    assert(s.push(c).drop_last() =~= s);
    let z = seq!['0'] + s;
    if s.len() == 0 {
        assert(z.drop_last() =~= s);
    } else {
        lemma_decimal(s.drop_last(), c);
        assert(z.drop_last() =~= seq!['0'] + s.drop_last());
    }
}

/// A number is written without leading zeros, and with a sign only where it is negative.
pub proof fn lemma_written_plainly(n: int)
    ensures
        int_text(n).len() > 0,
        n < 0 ==> int_text(n)[0] == '-',
        n == 0 ==> int_text(n) == seq!['0'],
        n > 0 ==> '1' <= int_text(n)[0] <= '9',
    decreases if n < 0 {
        0
    } else {
        n
    },
{
    if n >= 0 {
        lemma_digits(n as nat);
        assert('0' as nat == 48);
        if n >= 10 {
            lemma_written_plainly(n / 10);
            lemma_digits((n / 10) as nat);
            assert((n as nat) / 10 == n / 10);
        }
    }
}

/// A plus sign makes no difference; a minus sign gives the opposite where it is taken,
/// and no number where it is not.
pub proof fn lemma_signs(s: Seq<char>, min: int, max: int)
    requires
        s.len() > 0,
        all_digits(s),
    ensures
        number(s, true, min, max) == number(s, false, min, max),
        number(seq!['+'] + s, true, min, max) == number(s, true, min, max),
        number(seq!['+'] + s, false, min, max) == number(s, false, min, max),
        number(seq!['-'] + s, false, min, max) is None,
        ({
            let n = -(value(s) as int);
            number(seq!['-'] + s, true, min, max) == if min <= n <= max {
                Some(n)
            } else {
                None
            }
        }),
{
    assert(is_digit(s[0]));
    assert((seq!['+'] + s).skip(1) =~= s);
    assert((seq!['-'] + s).skip(1) =~= s);
    let minus = seq!['-'] + s;
    assert(!is_digit(minus[0]));
    assert(!all_digits(minus));
}

/// A text is a number of so much just where it is digits of that value, and the value is
/// between the bounds; anything else in it, and it is none.
pub proof fn lemma_digits_only(s: Seq<char>, signed: bool, min: int, max: int)
    requires
        s.len() > 0,
        s[0] != '+',
        s[0] != '-',
    ensures
        all_digits(s) && min <= value(s) <= max ==> number(s, signed, min, max) == Some(
            value(s) as int,
        ),
        all_digits(s) && !(min <= value(s) <= max) ==> number(s, signed, min, max) is None,
        !all_digits(s) ==> number(s, signed, min, max) is None,
        number(Seq::empty(), signed, min, max) is None,
        number(seq!['+'], signed, min, max) is None,
        number(seq!['-'], signed, min, max) is None,
{
    assert(seq!['+'].skip(1) =~= Seq::<char>::empty());
    assert(seq!['-'].skip(1) =~= Seq::<char>::empty());
    assert(!is_digit(seq!['-'][0]));
}

/// All of a text is white space.
pub open spec fn all_space(s: Seq<char>) -> bool {
    forall|i: int| 0 <= i < s.len() ==> is_space(#[trigger] s[i])
}

/// Trimming takes the white space from both ends of a text and nothing else: what is left
/// neither begins nor ends with any.
pub proof fn lemma_trimmed(s: Seq<char>) -> (parts: (Seq<char>, Seq<char>))
    ensures
        s == parts.0 + trimmed(s) + parts.1,
        all_space(parts.0),
        all_space(parts.1),
        trimmed(s).len() > 0 ==> !is_space(trimmed(s)[0]) && !is_space(
            trimmed(s)[trimmed(s).len() - 1],
        ),
{
    let a = lemma_trimmed_front(s);
    let rest = trimmed_front(s);
    let b = lemma_trimmed_back(rest);
    assert(s =~= a + trimmed(s) + b);
    if trimmed(s).len() > 0 {
        assert(rest[0] == trimmed(s)[0]);
    }
    (a, b)
}

proof fn lemma_trimmed_front(s: Seq<char>) -> (front: Seq<char>)
    ensures
        s == front + trimmed_front(s),
        all_space(front),
        trimmed_front(s).len() > 0 ==> !is_space(trimmed_front(s)[0]),
    decreases s.len(),
{
    if s.len() > 0 && is_space(s[0]) {
        let rest = lemma_trimmed_front(s.drop_first());
        let front = seq![s[0]] + rest;
        assert(s =~= seq![s[0]] + s.drop_first());
        assert(front + trimmed_front(s) =~= seq![s[0]] + (rest + trimmed_front(s)));
        assert forall|i: int| 0 <= i < front.len() implies is_space(#[trigger] front[i]) by {
            if i > 0 {
                assert(front[i] == rest[i - 1]);
            }
        }
        front
    } else {
        assert(s =~= Seq::<char>::empty() + s);
        Seq::empty()
    }
}

proof fn lemma_trimmed_back(s: Seq<char>) -> (back: Seq<char>)
    ensures
        s == trimmed_back(s) + back,
        all_space(back),
        trimmed_back(s).len() > 0 ==> !is_space(trimmed_back(s)[trimmed_back(s).len() - 1]),
    decreases s.len(),
{
    if s.len() > 0 && is_space(s.last()) {
        let rest = lemma_trimmed_back(s.drop_last());
        let back = rest.push(s.last());
        assert(s =~= s.drop_last().push(s.last()));
        assert(trimmed_back(s) + back =~= (trimmed_back(s) + rest).push(s.last()));
        back
    } else {
        assert(s =~= s + Seq::<char>::empty());
        Seq::empty()
    }
}

/// Of the ASCII characters the space, the tab, the line feed, the vertical tab, the form
/// feed and the carriage return are white space, and no others.
pub proof fn lemma_ascii_space(c: char)
    requires
        (c as u32) < 128,
    ensures
        is_space(c) <==> c as u32 == 32 || c as u32 == 9 || c as u32 == 10 || c as u32 == 11
            || c as u32 == 12 || c as u32 == 13,
{
}

} // verus!
