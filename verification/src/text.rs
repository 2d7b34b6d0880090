//! Text helpers: ASCII case, trimming, decimal numbers and string order.

use vstd::prelude::*;

verus! {

/// `String::push` appends one character at the end of the string.
pub assume_specification[ String::push ](s: &mut String, c: char)
    ensures
        final(s)@ == old(s)@.push(c),
;

/// The Unicode `White_Space` property.
pub open spec fn is_white(c: char) -> bool {
    ||| '\u{9}' <= c <= '\u{d}'
    ||| c == '\u{20}'
    ||| c == '\u{85}'
    ||| c == '\u{a0}'
    ||| c == '\u{1680}'
    ||| '\u{2000}' <= c <= '\u{200a}'
    ||| c == '\u{2028}'
    ||| c == '\u{2029}'
    ||| c == '\u{202f}'
    ||| c == '\u{205f}'
    ||| c == '\u{3000}'
}

/// `char::is_whitespace` tells whether a character has the Unicode `White_Space` property.
pub assume_specification[ char::is_whitespace ](c: char) -> (white: bool)
    ensures
        white == is_white(c),
;

/// `a` to `z` for `A` to `Z`; every other character stays.
pub open spec fn lower_char(c: char) -> char {
    if 'A' <= c <= 'Z' {
        (c as u32 + 32) as char
    } else {
        c
    }
}

/// `A` to `Z` for `a` to `z`; every other character stays.
pub open spec fn upper_char(c: char) -> char {
    if 'a' <= c <= 'z' {
        (c as u32 - 32) as char
    } else {
        c
    }
}

/// A text with its ASCII letters in lower case.
pub open spec fn lower(s: Seq<char>) -> Seq<char> {
    s.map_values(|c: char| lower_char(c))
}

/// A text with its ASCII letters in upper case.
pub open spec fn upper(s: Seq<char>) -> Seq<char> {
    s.map_values(|c: char| upper_char(c))
}

/// A text without the white space at its two ends.
pub open spec fn trim(s: Seq<char>) -> Seq<char>
    decreases s.len(),
{
    if s.len() > 0 && is_white(s.first()) {
        trim(s.drop_first())
    } else if s.len() > 0 && is_white(s.last()) {
        trim(s.drop_last())
    } else {
        s
    }
}

pub fn lower_of(c: char) -> (r: char)
    ensures
        r == lower_char(c),
{
    if 'A' <= c && c <= 'Z' {
        ((c as u8) + 32) as char
    } else {
        c
    }
}

pub fn upper_of(c: char) -> (r: char)
    ensures
        r == upper_char(c),
{
    if 'a' <= c && c <= 'z' {
        ((c as u8) - 32) as char
    } else {
        c
    }
}

/// The text in lower case (ASCII letters only).
pub fn to_lower(s: &str) -> (r: String)
    ensures
        r@ == lower(s@),
{
    let mut out = String::new();
    for c in it: s.chars()
        invariant
            it.seq() == s@,
            out@ == lower(s@.take(it.index())),
    {
        out.push(lower_of(c));
        proof {
            assert(s@.take(it.index() + 1) == s@.take(it.index()).push(c));
        }
    }
    proof {
        assert(s@.take(s@.len() as int) == s@);
    }
    out
}

/// The text in upper case (ASCII letters only).
pub fn to_upper(s: &str) -> (r: String)
    ensures
        r@ == upper(s@),
{
    let mut out = String::new();
    for c in it: s.chars()
        invariant
            it.seq() == s@,
            out@ == upper(s@.take(it.index())),
    {
        out.push(upper_of(c));
        proof {
            assert(s@.take(it.index() + 1) == s@.take(it.index()).push(c));
        }
    }
    proof {
        assert(s@.take(s@.len() as int) == s@);
    }
    out
}

/// The characters of a text.
pub fn chars_of(s: &str) -> (r: Vec<char>)
    ensures
        r@ == s@,
{
    let mut out: Vec<char> = Vec::new();
    for c in it: s.chars()
        invariant
            it.seq() == s@,
            out@ == s@.take(it.index()),
    {
        out.push(c);
        proof {
            assert(s@.take(it.index() + 1) == s@.take(it.index()).push(c));
        }
    }
    proof {
        assert(s@.take(s@.len() as int) == s@);
    }
    out
}

/// The text made of `cs[from..to]`.
pub fn text_of(cs: &Vec<char>, from: usize, to: usize) -> (r: String)
    requires
        from <= to <= cs@.len(),
    ensures
        r@ == cs@.subrange(from as int, to as int),
{
    let mut out = String::new();
    let mut i: usize = from;
    while i < to
        invariant
            from <= i <= to <= cs@.len(),
            out@ == cs@.subrange(from as int, i as int),
        decreases to - i,
    {
        out.push(cs[i]);
        proof {
            assert(cs@.subrange(from as int, i + 1) == cs@.subrange(from as int, i as int).push(
                cs@[i as int],
            ));
        }
        i += 1;
    }
    out
}

/// The text without the white space at its two ends.
pub fn trimmed(s: &str) -> (r: String)
    ensures
        r@ == trim(s@),
{
    let cs = chars_of(s);
    let mut from: usize = 0;
    let mut to: usize = cs.len();
    proof {
        assert(cs@.subrange(0, cs@.len() as int) == cs@);
    }
    while from < to && cs[from].is_whitespace()
        invariant
            from <= to == cs@.len(),
            trim(cs@) == trim(cs@.subrange(from as int, to as int)),
        decreases to - from,
    {
        proof {
            let cur = cs@.subrange(from as int, to as int);
            assert(cur.drop_first() == cs@.subrange(from + 1, to as int));
        }
        from += 1;
    }
    while from < to && cs[to - 1].is_whitespace()
        invariant
            from <= to <= cs@.len(),
            from < to ==> !is_white(cs@[from as int]),
            trim(cs@) == trim(cs@.subrange(from as int, to as int)),
        decreases to - from,
    {
        proof {
            let cur = cs@.subrange(from as int, to as int);
            assert(cur.drop_last() == cs@.subrange(from as int, to - 1));
        }
        to -= 1;
    }
    text_of(&cs, from, to)
}

/// Whether two texts hold the same characters.
pub fn same_text(a: &str, b: &str) -> (r: bool)
    ensures
        r == (a@ == b@),
{
    let x: String = a.to_owned();
    let y: String = b.to_owned();
    x == y
}

/// Two texts one after the other.
pub fn join2(a: &str, b: &str) -> (r: String)
    ensures
        r@ == a@ + b@,
{
    a.to_owned().concat(b)
}

/// The decimal digit of `d`.
pub open spec fn digit_char(d: nat) -> char {
    (('0' as u32) + d) as char
}

/// A natural number in decimal notation.
pub open spec fn decimal(n: nat) -> Seq<char>
    decreases n,
{
    if n < 10 {
        seq![digit_char(n)]
    } else {
        decimal(n / 10).push(digit_char(n % 10))
    }
}

/// An integer in decimal notation, with `-` before a negative one.
pub open spec fn decimal_int(n: int) -> Seq<char> {
    if n < 0 {
        seq!['-'] + decimal((-n) as nat)
    } else {
        decimal(n as nat)
    }
}

/// A decimal notation has digits only, at least one, and is read back as its number.
proof fn lemma_decimal(n: nat)
    ensures
        decimal(n).len() > 0,
        forall|i: int| 0 <= i < decimal(n).len() ==> '0' <= #[trigger] decimal(n)[i] <= '9',
        digits_value(decimal(n)) == Some(n),
    decreases n,
{
    reveal_with_fuel(digits_value, 2);
    if n < 10 {
        assert(decimal(n).drop_last() =~= Seq::<char>::empty());
        assert(decimal(n).last() == digit_char(n));
    } else {
        lemma_decimal(n / 10);
        assert(decimal(n).drop_last() =~= decimal(n / 10));
        assert(decimal(n).last() == digit_char(n % 10));
    }
}

/// No two integers have the same decimal notation, and none holds a colon.
pub proof fn lemma_decimal_int_distinct(a: int, b: int)
    ensures
        decimal_int(a) == decimal_int(b) ==> a == b,
        forall|i: int| 0 <= i < decimal_int(a).len() ==> #[trigger] decimal_int(a)[i] != ':',
{
    lemma_decimal((if a < 0 {
        -a
    } else {
        a
    }) as nat);
    lemma_decimal((if b < 0 {
        -b
    } else {
        b
    }) as nat);
    if decimal_int(a) == decimal_int(b) {
        assert(decimal_int(a)[0] == decimal_int(b)[0]);
        if a < 0 && b < 0 {
            assert(decimal_int(a).skip(1) =~= decimal((-a) as nat));
            assert(decimal_int(b).skip(1) =~= decimal((-b) as nat));
        }
    }
}

/// An unsigned number in decimal notation.
pub fn number_text(n: u64) -> (r: String)
    ensures
        r@ == decimal(n as nat),
    decreases n,
{
    let last: char = (48u8 + (n % 10) as u8) as char;
    if n < 10 {
        let mut out = String::new();
        out.push(last);
        proof {
            assert(out@ == seq![digit_char(n as nat)]);
        }
        out
    } else {
        let mut out = number_text(n / 10);
        out.push(last);
        out
    }
}

/// A large unsigned number in decimal notation.
pub fn large_number_text(n: u128) -> (r: String)
    ensures
        r@ == decimal(n as nat),
    decreases n,
{
    let last: char = (48u8 + (n % 10) as u8) as char;
    if n < 10 {
        let mut out = String::new();
        out.push(last);
        proof {
            assert(out@ == seq![digit_char(n as nat)]);
        }
        out
    } else {
        let mut out = large_number_text(n / 10);
        out.push(last);
        out
    }
}

/// A signed number in decimal notation.
pub fn signed_text(n: i64) -> (r: String)
    ensures
        r@ == decimal_int(n as int),
{
    if n < 0 {
        let mag: u64 = if n == i64::MIN {
            9223372036854775808u64
        } else {
            (-n) as u64
        };
        let mut out = String::new();
        out.push('-');
        proof {
            assert(out@ == seq!['-']);
        }
        out.concat(number_text(mag).as_str())
    } else {
        number_text(n as u64)
    }
}

/// Order of texts by their first differing character, a prefix coming first.
pub open spec fn text_lt(a: Seq<char>, b: Seq<char>) -> bool
    decreases a.len(),
{
    if b.len() == 0 {
        false
    } else if a.len() == 0 {
        true
    } else if a[0] != b[0] {
        a[0] < b[0]
    } else {
        text_lt(a.drop_first(), b.drop_first())
    }
}

/// Whether text `a` comes before text `b`.
pub fn comes_before(a: &str, b: &str) -> (r: bool)
    ensures
        r == text_lt(a@, b@),
{
    let x = chars_of(a);
    let y = chars_of(b);
    let mut i: usize = 0;
    proof {
        assert(x@.skip(0) == x@);
        assert(y@.skip(0) == y@);
    }
    while i < x.len() && i < y.len() && x[i] == y[i]
        invariant
            i <= x@.len(),
            i <= y@.len(),
            text_lt(x@, y@) == text_lt(x@.skip(i as int), y@.skip(i as int)),
        decreases x@.len() - i,
    {
        proof {
            assert(x@.skip(i as int).drop_first() == x@.skip(i + 1));
            assert(y@.skip(i as int).drop_first() == y@.skip(i + 1));
        }
        i += 1;
    }
    if i >= y.len() {
        false
    } else if i >= x.len() {
        true
    } else {
        x[i] < y[i]
    }
}

/// The characters of a text that may be missing.
pub open spec fn opt_view(t: Option<String>) -> Option<Seq<char>> {
    match t {
        Some(s) => Some(s@),
        None => None,
    }
}

/// A copy of a text that may be missing.
pub fn clone_text(t: &Option<String>) -> (r: Option<String>)
    ensures
        r == *t,
{
    match t {
        Some(s) => Some(s.clone()),
        None => None,
    }
}

/// No text comes before itself.
pub proof fn lemma_text_lt_irreflexive(a: Seq<char>)
    ensures
        !text_lt(a, a),
    decreases a.len(),
{
    if a.len() > 0 {
        lemma_text_lt_irreflexive(a.drop_first());
    }
}

/// Of two different texts one comes before the other, and not both.
pub proof fn lemma_text_lt_total(a: Seq<char>, b: Seq<char>)
    ensures
        a != b ==> text_lt(a, b) || text_lt(b, a),
        !(text_lt(a, b) && text_lt(b, a)),
    decreases a.len(),
{
    if a.len() > 0 && b.len() > 0 {
        lemma_text_lt_total(a.drop_first(), b.drop_first());
        if a[0] == b[0] && a.drop_first() == b.drop_first() {
            assert(a =~= seq![a[0]] + a.drop_first());
            assert(b =~= seq![b[0]] + b.drop_first());
        }
    } else if a.len() == 0 && b.len() == 0 {
        assert(a =~= b);
    }
}

/// The order of texts is transitive.
pub proof fn lemma_text_lt_transitive(a: Seq<char>, b: Seq<char>, c: Seq<char>)
    requires
        text_lt(a, b),
        text_lt(b, c),
    ensures
        text_lt(a, c),
    decreases a.len(),
{
    if a.len() > 0 && a[0] == b[0] && b[0] == c[0] {
        lemma_text_lt_transitive(a.drop_first(), b.drop_first(), c.drop_first());
    }
}

/// A text that comes before neither of two others in a row does not come before the first.
pub proof fn lemma_text_lt_weak(a: Seq<char>, b: Seq<char>, c: Seq<char>)
    requires
        !text_lt(b, a),
        !text_lt(c, b),
    ensures
        !text_lt(c, a),
{
    if text_lt(c, a) {
        lemma_text_lt_total(a, b);
        lemma_text_lt_total(b, c);
        if a != b {
            lemma_text_lt_transitive(c, a, b);
        }
    }
}

/// The value of decimal digits; none where another character stands among them.
pub open spec fn digits_value(s: Seq<char>) -> Option<nat>
    decreases s.len(),
{
    if s.len() == 0 {
        Some(0)
    } else {
        match digits_value(s.drop_last()) {
            Some(v) => if '0' <= s.last() <= '9' {
                Some(v * 10 + (s.last() as nat - '0' as nat) as nat)
            } else {
                None
            },
            None => None,
        }
    }
}

/// The number that a text names, at most `max`: decimal digits with at most one `+` before them.
pub open spec fn parsed_number(s: Seq<char>, max: nat) -> Option<nat> {
    let digits = if s.len() > 0 && s[0] == '+' {
        s.skip(1)
    } else {
        s
    };
    if digits.len() == 0 {
        None
    } else {
        match digits_value(digits) {
            Some(v) => if v <= max {
                Some(v)
            } else {
                None
            },
            None => None,
        }
    }
}

proof fn lemma_digits_grow(s: Seq<char>, n: int)
    requires
        0 <= n <= s.len(),
    ensures
        digits_value(s) is Some ==> digits_value(s.take(n)) is Some && digits_value(s.take(n))->0
            <= digits_value(s)->0,
    decreases s.len() - n,
{
    if n < s.len() {
        lemma_digits_grow(s, n + 1);
        assert(s.take(n + 1).drop_last() =~= s.take(n));
    } else {
        assert(s.take(n) =~= s);
    }
}

/// The number that a text names, at most `max`: decimal digits with at most one `+` before them.
pub fn parse_number(s: &str, max: u64) -> (r: Option<u64>)
    ensures
        r is Some <==> parsed_number(s@, max as nat) is Some,
        r matches Some(v) ==> parsed_number(s@, max as nat) == Some(v as nat),
{
    let cs = chars_of(s);
    let from: usize = if cs.len() > 0 && cs[0] == '+' {
        1
    } else {
        0
    };
    if from >= cs.len() {
        return None;
    }
    let ghost digits = cs@.skip(from as int);
    proof {
        assert(from == 0 ==> digits =~= cs@);
        assert(digits.take(0) =~= Seq::<char>::empty());
    }
    let mut value: u64 = 0;
    let mut i: usize = from;
    while i < cs.len()
        invariant
            from <= i <= cs@.len(),
            digits == cs@.skip(from as int),
            value <= max,
            digits_value(digits.take(i - from)) == Some(value as nat),
            parsed_number(s@, max as nat) == (match digits_value(digits) {
                Some(v) => if v <= max {
                    Some(v)
                } else {
                    None::<nat>
                },
                None => None,
            }),
        decreases cs@.len() - i,
    {
        let c = cs[i];
        proof {
            assert(digits.take(i - from + 1).drop_last() =~= digits.take(i - from));
            assert(digits.take(i - from + 1).last() == c);
            lemma_digits_grow(digits, i - from + 1);
        }
        if !('0' <= c && c <= '9') {
            return None;
        }
        let d: u64 = (c as u8 - 48) as u64;
        if d > max || value > (max - d) / 10 {
            proof {
                assert(value * 10 + d > max);
            }
            return None;
        }
        value = value * 10 + d;
        i += 1;
    }
    proof {
        assert(digits.take(i - from) =~= digits);
    }
    Some(value)
}

/// The first `n` characters.
pub open spec fn first_chars(s: Seq<char>, n: nat) -> Seq<char> {
    if s.len() <= n {
        s
    } else {
        s.take(n as int)
    }
}

/// The first `n` characters.
pub fn truncate(s: &str, n: usize) -> (r: String)
    ensures
        r@ == first_chars(s@, n as nat),
{
    let cs = chars_of(s);
    let to: usize = if cs.len() <= n {
        cs.len()
    } else {
        n
    };
    let r = text_of(&cs, 0, to);
    proof {
        assert(cs@.subrange(0, to as int) =~= first_chars(s@, n as nat));
    }
    r
}

/// A text trimmed; none where it is missing or nothing is left of it.
pub open spec fn trimmed_or_none(t: Option<Seq<char>>) -> Option<Seq<char>> {
    match t {
        Some(s) => if trim(s).len() > 0 {
            Some(trim(s))
        } else {
            None
        },
        None => None,
    }
}

/// A text trimmed; none where it is missing or nothing is left of it.
pub fn empty_to_none(t: &Option<String>) -> (r: Option<String>)
    ensures
        opt_view(r) == trimmed_or_none(opt_view(*t)),
{
    match t {
        Some(s) => {
            let x = trimmed(s.as_str());
            if x.as_str().is_empty() {
                None
            } else {
                Some(x)
            }
        },
        None => None,
    }
}

/// `part` occurs in `s` at `i`.
pub open spec fn occurs_at(s: Seq<char>, part: Seq<char>, i: int) -> bool {
    0 <= i <= s.len() - part.len() && s.subrange(i, i + part.len()) == part
}

/// `part` occurs in `s`.
pub open spec fn occurs(s: Seq<char>, part: Seq<char>) -> bool {
    exists|i: int| occurs_at(s, part, i)
}

/// Whether `part` occurs in `s`.
pub fn has_part(s: &str, part: &str) -> (r: bool)
    ensures
        r == occurs(s@, part@),
{
    let a = chars_of(s);
    let b = chars_of(part);
    if b.len() > a.len() {
        return false;
    }
    let last: usize = a.len() - b.len();
    let mut i: usize = 0;
    loop
        invariant
            a@ == s@,
            b@ == part@,
            last == a@.len() - b@.len(),
            0 <= i <= last,
            a@.len() == a.len(),
            forall|p: int| 0 <= p < i ==> !occurs_at(s@, part@, p),
        decreases last - i,
    {
        let mut j: usize = 0;
        while j < b.len() && a[i + j] == b[j]
            invariant
                0 <= j <= b@.len(),
                i + b@.len() <= a@.len(),
                a@.len() == a.len(),
                forall|q: int| 0 <= q < j ==> a@[i + q] == #[trigger] b@[q],
            decreases b@.len() - j,
        {
            j += 1;
        }
        if j == b.len() {
            proof {
                assert(a@.subrange(i as int, i + b@.len()) =~= b@);
                assert(occurs_at(s@, part@, i as int));
            }
            return true;
        }
        proof {
            if occurs_at(s@, part@, i as int) {
                assert(a@.subrange(i as int, i + b@.len())[j as int] == b@[j as int]);
            }
        }
        if i == last {
            return false;
        }
        i += 1;
    }
}

/// A trimmed text neither begins nor ends with white space.
pub proof fn lemma_trimmed_ends(s: Seq<char>)
    ensures
        trim(s).len() > 0 ==> !is_white(trim(s).first()) && !is_white(trim(s).last()),
        trim(s).len() <= s.len(),
    decreases s.len(),
{
    if s.len() > 0 && is_white(s.first()) {
        lemma_trimmed_ends(s.drop_first());
    } else if s.len() > 0 && is_white(s.last()) {
        lemma_trimmed_ends(s.drop_last());
    }
}

/// A text that needs no trimming needs none in upper case, and upper case is stable.
pub proof fn lemma_trim_upper(s: Seq<char>)
    ensures
        s.len() > 0 && !is_white(s.first()) && !is_white(s.last()) ==> trim(upper(s)) == upper(s),
        upper(upper(s)) == upper(s),
{
    assert(upper(upper(s)) =~= upper(s));
}

/// Whether two texts differ at most in the case of ASCII letters.
pub fn same_ignoring_case(a: &str, b: &str) -> (r: bool)
    ensures
        r == (lower(a@) == lower(b@)),
{
    let x = to_lower(a);
    let y = to_lower(b);
    same_text(x.as_str(), y.as_str())
}

/// The decimal notation of a number, digit by digit: the last character is the digit of the ones,
/// what stands before it is the notation of the tens, and below ten nothing does.
pub proof fn law_decimal_digits(n: nat)
    ensures
        decimal(n).len() > 0,
        decimal(n).last() as nat == 48 + n % 10,
        n < 10 ==> decimal(n).len() == 1,
        n >= 10 ==> decimal(n).drop_last() == decimal(n / 10),
{
    lemma_decimal(n);
    if n >= 10 {
        assert(decimal(n).drop_last() =~= decimal(n / 10));
    }
}

/// A number is read back from its decimal notation, with or without a plus sign, wherever it is no
/// larger than allowed; a text that is empty, or holds anything but digits behind at most one plus
/// sign, is no number.
pub proof fn law_numbers_are_read_back(n: nat, max: nat, s: Seq<char>)
    ensures
        parsed_number(decimal(n), max) == (if n <= max {
            Some(n)
        } else {
            None
        }),
        parsed_number(seq!['+'] + decimal(n), max) == (if n <= max {
            Some(n)
        } else {
            None
        }),
        parsed_number(Seq::empty(), max) is None,
        parsed_number(seq!['+'], max) is None,
        forall|i: int|
            0 <= i < s.len() && !('0' <= #[trigger] s[i] <= '9') && (i > 0 || s[i] != '+')
                ==> parsed_number(s, max) is None,
{
    lemma_decimal(n);
    let d = decimal(n);
    assert('0' <= d[0] <= '9');
    assert((seq!['+'] + d).skip(1) =~= d);
    assert(seq!['+'].skip(1).len() == 0);
    assert forall|i: int| 0 <= i < s.len() && !('0' <= #[trigger] s[i] <= '9') && (i > 0 || s[i]
        != '+') implies parsed_number(s, max) is None by {
        if s[0] == '+' {
            assert(s.skip(1)[i - 1] == s[i]);
            lemma_other_characters(s.skip(1), i - 1);
        } else {
            lemma_other_characters(s, i);
        }
    }
}

proof fn lemma_other_characters(s: Seq<char>, i: int)
    requires
        0 <= i < s.len(),
        !('0' <= s[i] <= '9'),
    ensures
        digits_value(s) is None,
    decreases s.len(),
{
    if i < s.len() - 1 {
        assert(s.drop_last()[i] == s[i]);
        lemma_other_characters(s.drop_last(), i);
    }
}

/// Lower case changes the letters from A to Z, each to the letter 32 places on, and nothing else;
/// upper case the letters from a to z, each to the letter 32 places back. So neither changes the
/// length, and what is in one case stays as it is in that case.
pub proof fn law_case_of_letters(s: Seq<char>)
    ensures
        lower(s).len() == s.len(),
        upper(s).len() == s.len(),
        forall|i: int|
            0 <= i < s.len() ==> #[trigger] lower(s)[i] as int == s[i] as int + (if 65 <= s[i] as int
                <= 90 {
                32int
            } else {
                0
            }),
        forall|i: int|
            0 <= i < s.len() ==> #[trigger] upper(s)[i] as int == s[i] as int - (if 97 <= s[i] as int
                <= 122 {
                32int
            } else {
                0
            }),
        lower(lower(s)) == lower(s),
        upper(upper(s)) == upper(s),
        lower(upper(s)) == lower(s),
        upper(lower(s)) == upper(s),
{
    assert(lower(lower(s)) =~= lower(s));
    assert(upper(upper(s)) =~= upper(s));
    assert(lower(upper(s)) =~= lower(s));
    assert(upper(lower(s)) =~= upper(s));
}

/// A trimmed text is what is left between white space on both sides: all that goes is white, and
/// what is left neither begins nor ends with white space.
pub proof fn law_trimmed(s: Seq<char>)
    ensures
        exists|i: int, j: int|
            0 <= i <= j <= s.len() && #[trigger] s.subrange(i, j) == trim(s) && (forall|k: int|
                0 <= k < i ==> is_white(#[trigger] s[k])) && (forall|k: int|
                j <= k < s.len() ==> is_white(#[trigger] s[k])),
        trim(s).len() > 0 ==> !is_white(trim(s).first()) && !is_white(trim(s).last()),
        trim(trim(s)) == trim(s),
{
    lemma_trimmed_ends(s);
    lemma_trim_part(s, 0, s.len() as int);
    assert(s.subrange(0, s.len() as int) =~= s);
}

proof fn lemma_trim_part(s: Seq<char>, from: int, to: int)
    requires
        0 <= from <= to <= s.len(),
        forall|k: int| 0 <= k < from ==> is_white(#[trigger] s[k]),
        forall|k: int| to <= k < s.len() ==> is_white(#[trigger] s[k]),
    ensures
        exists|i: int, j: int|
            0 <= i <= j <= s.len() && #[trigger] s.subrange(i, j) == trim(s.subrange(from, to)) && (
            forall|k: int| 0 <= k < i ==> is_white(#[trigger] s[k])) && (forall|k: int|
                j <= k < s.len() ==> is_white(#[trigger] s[k])),
    decreases to - from,
{
    let part = s.subrange(from, to);
    if part.len() > 0 && is_white(part.first()) {
        assert(part.drop_first() =~= s.subrange(from + 1, to));
        lemma_trim_part(s, from + 1, to);
    } else if part.len() > 0 && is_white(part.last()) {
        assert(part.drop_last() =~= s.subrange(from, to - 1));
        lemma_trim_part(s, from, to - 1);
    } else {
        assert(s.subrange(from, to) == trim(part));
    }
}

/// One text comes before another exactly where, behind what the two begin with in common, it has
/// ended and the other has not, or it goes on with the smaller character.
pub proof fn law_text_order(a: Seq<char>, b: Seq<char>)
    ensures
        text_lt(a, b) <==> exists|k: int|
            0 <= k <= a.len() && k < b.len() && #[trigger] a.take(k) == b.take(k) && (k == a.len()
                || a[k] < b[k]),
    decreases a.len(),
{
    if a.len() > 0 && b.len() > 0 && a[0] == b[0] {
        let x = a.drop_first();
        let y = b.drop_first();
        law_text_order(x, y);
        if text_lt(a, b) {
            let k = choose|k: int|
                0 <= k <= x.len() && k < y.len() && #[trigger] x.take(k) == y.take(k) && (k
                    == x.len() || x[k] < y[k]);
            assert(a.take(k + 1) =~= seq![a[0]] + x.take(k));
            assert(b.take(k + 1) =~= seq![b[0]] + y.take(k));
        } else if exists|k: int|
            0 <= k <= a.len() && k < b.len() && #[trigger] a.take(k) == b.take(k) && (k == a.len()
                || a[k] < b[k]) {
            let k = choose|k: int|
                0 <= k <= a.len() && k < b.len() && #[trigger] a.take(k) == b.take(k) && (k
                    == a.len() || a[k] < b[k]);
            assert(x.take(k - 1) =~= a.take(k).drop_first());
            assert(y.take(k - 1) =~= b.take(k).drop_first());
        }
    } else {
        if text_lt(a, b) {
            assert(a.take(0) =~= b.take(0));
        }
        if exists|k: int|
            0 <= k <= a.len() && k < b.len() && #[trigger] a.take(k) == b.take(k) && (k == a.len()
                || a[k] < b[k]) {
            let k = choose|k: int|
                0 <= k <= a.len() && k < b.len() && #[trigger] a.take(k) == b.take(k) && (k
                    == a.len() || a[k] < b[k]);
            if k > 0 {
                assert(a.take(k)[0] == b.take(k)[0]);
            }
        }
    }
}

/// A text cut at a number of characters is what it begins with: all of it where it is no longer, and
/// else that many characters.
pub proof fn law_first_chars(s: Seq<char>, n: nat)
    ensures
        first_chars(s, n).len() == (if s.len() <= n {
            s.len()
        } else {
            n
        }),
        forall|i: int|
            0 <= i < first_chars(s, n).len() ==> #[trigger] first_chars(s, n)[i] == s[i],
{
}

/// A text that may be missing counts as missing where it is white space alone; else it is kept
/// without the white space around it.
pub proof fn law_blank_counts_as_missing(s: Seq<char>)
    ensures
        trimmed_or_none(None) is None,
        trimmed_or_none(Some(s)) is None <==> forall|i: int|
            0 <= i < s.len() ==> is_white(#[trigger] s[i]),
        trimmed_or_none(Some(s)) matches Some(t) ==> t == trim(s),
{
    law_trimmed(s);
    let (i, j) = choose|i: int, j: int|
        0 <= i <= j <= s.len() && #[trigger] s.subrange(i, j) == trim(s) && (forall|k: int|
            0 <= k < i ==> is_white(#[trigger] s[k])) && (forall|k: int|
            j <= k < s.len() ==> is_white(#[trigger] s[k]));
    if trim(s).len() > 0 {
        assert(s[i] == trim(s).first());
    }
}

} // verus!
