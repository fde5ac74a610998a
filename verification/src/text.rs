use vstd::prelude::*;
use vstd::std_specs::iter::IteratorSpec;
use vstd::string::StrSliceExecFns;
use vstd::string::StringExecFns;

verus! {

broadcast use vstd::string::group_string_axioms;

/// The character of a decimal digit.
pub open spec fn digit_char(d: nat) -> char {
    if d == 0 { '0' }
    else if d == 1 { '1' }
    else if d == 2 { '2' }
    else if d == 3 { '3' }
    else if d == 4 { '4' }
    else if d == 5 { '5' }
    else if d == 6 { '6' }
    else if d == 7 { '7' }
    else if d == 8 { '8' }
    else { '9' }
}

/// Whether `c` is an ASCII decimal digit.
pub open spec fn is_digit(c: char) -> bool {
    '0' <= c <= '9'
}

/// The value of an ASCII decimal digit.
pub open spec fn digit_value(c: char) -> nat {
    (c as int - '0' as int) as nat
}

/// The decimal text of a number, without sign or leading zeros.
pub open spec fn decimal(n: nat) -> Seq<char>
    decreases n,
{
    if n < 10 {
        seq![digit_char(n)]
    } else {
        decimal(n / 10).push(digit_char(n % 10))
    }
}

/// The value of a run of decimal digits.
pub open spec fn digits_value(s: Seq<char>) -> nat
    decreases s.len(),
{
    if s.len() == 0 {
        0
    } else {
        digits_value(s.drop_last()) * 10 + digit_value(s.last())
    }
}

/// How `str::parse` reads an unsigned integer no greater than `max`: an
/// optional `+` followed by at least one decimal digit and nothing else,
/// whose value fits.
pub open spec fn parse_unsigned(s: Seq<char>, max: nat) -> Option<nat> {
    let body = unsigned_body(s);
    if body.len() == 0 || !all_digits(body) {
        None
    } else if digits_value(body) <= max {
        Some(digits_value(body))
    } else {
        None
    }
}

/// Why `str::parse` refuses a text as an unsigned number.
#[derive(Debug, Clone, Copy, PartialEq, Eq, Structural)]
pub enum NumberError {
    /// The text is empty.
    Empty,
    /// A character is not a digit.
    InvalidDigit,
    /// The value is too large.
    TooLarge,
}

/// Why `str::parse` refuses `s` as an unsigned number no greater than `max`:
/// the text is empty; or, reading the digits after an optional `+` from the
/// left, a character that is not a digit, or a value over `max`, comes first.
pub open spec fn number_error(s: Seq<char>, max: nat) -> NumberError {
    if s.len() == 0 {
        NumberError::Empty
    } else {
        first_fault(unsigned_body(s), max, 0)
    }
}

/// The first fault in `body` from position `k` on: a character that is not a
/// digit, or a digit that takes the value over `max`.
pub open spec fn first_fault(body: Seq<char>, max: nat, k: nat) -> NumberError
    decreases body.len() - k,
{
    if k >= body.len() {
        NumberError::InvalidDigit
    } else if !is_digit(body[k as int]) {
        NumberError::InvalidDigit
    } else if digits_value(body.take(k as int + 1)) > max {
        NumberError::TooLarge
    } else {
        first_fault(body, max, k + 1)
    }
}

/// The digits of an unsigned number: the text without a leading `+`.
pub open spec fn unsigned_body(s: Seq<char>) -> Seq<char> {
    if s.len() > 0 && s[0] == '+' { s.drop_first() } else { s }
}

/// Whether every character of `s` is a decimal digit.
pub open spec fn all_digits(s: Seq<char>) -> bool {
    forall|k: int| 0 <= k < s.len() ==> is_digit(#[trigger] s[k])
}

/// Whether `c` has the Unicode `White_Space` property, as `char::is_whitespace` says.
pub open spec fn is_whitespace(c: char) -> bool {
    ||| c == ' '
    ||| '\t' <= c <= '\r'
    ||| c == '\u{85}'
    ||| c == '\u{a0}'
    ||| c == '\u{1680}'
    ||| '\u{2000}' <= c <= '\u{200a}'
    ||| c == '\u{2028}'
    ||| c == '\u{2029}'
    ||| c == '\u{202f}'
    ||| c == '\u{205f}'
    ||| c == '\u{3000}'
}

/// `s` without its leading whitespace.
pub open spec fn trim_start(s: Seq<char>) -> Seq<char>
    decreases s.len(),
{
    if s.len() > 0 && is_whitespace(s[0]) {
        trim_start(s.drop_first())
    } else {
        s
    }
}

/// `s` without its trailing whitespace.
pub open spec fn trim_end(s: Seq<char>) -> Seq<char>
    decreases s.len(),
{
    if s.len() > 0 && is_whitespace(s.last()) {
        trim_end(s.drop_last())
    } else {
        s
    }
}

/// `s` without leading and trailing whitespace, as `str::trim` gives it.
pub open spec fn trim(s: Seq<char>) -> Seq<char> {
    trim_end(trim_start(s))
}

/// The positions of `sep` in `s`, in order.
pub open spec fn sep_positions(s: Seq<char>, sep: char) -> Seq<int>
    decreases s.len(),
{
    if s.len() == 0 {
        Seq::empty()
    } else {
        let p = sep_positions(s.drop_last(), sep);
        if s.last() == sep { p.push(s.len() - 1) } else { p }
    }
}

/// Where piece `k` of `s` split on `sep` starts.
pub open spec fn piece_start(s: Seq<char>, sep: char, k: int) -> int {
    if k == 0 { 0 } else { sep_positions(s, sep)[k - 1] + 1 }
}

/// Where piece `k` of `s` split on `sep` ends.
pub open spec fn piece_end(s: Seq<char>, sep: char, k: int) -> int {
    let p = sep_positions(s, sep);
    if k == p.len() { s.len() as int } else { p[k] }
}

/// The pieces of `s` between the characters `sep`, as `str::split` gives them:
/// one more than there are separators, possibly empty.
pub open spec fn split_on(s: Seq<char>, sep: char) -> Seq<Seq<char>> {
    Seq::new(
        sep_positions(s, sep).len() + 1,
        |k: int| s.subrange(piece_start(s, sep, k), piece_end(s, sep, k)),
    )
}

/// The separator positions are increasing, inside `s`, and hold `sep`.
pub proof fn lemma_sep_positions(s: Seq<char>, sep: char)
    ensures
        forall|k: int| 0 <= k < sep_positions(s, sep).len() ==> 0 <= #[trigger] sep_positions(s, sep)[k] < s.len()
            && s[sep_positions(s, sep)[k]] == sep,
        forall|a: int, b: int| 0 <= a < b < sep_positions(s, sep).len() ==> #[trigger] sep_positions(s, sep)[a]
            < #[trigger] sep_positions(s, sep)[b],
    decreases s.len(),
{
    if s.len() > 0 {
        lemma_sep_positions(s.drop_last(), sep);
        let p = sep_positions(s.drop_last(), sep);
        assert forall|k: int| 0 <= k < p.len() implies s[p[k]] == sep by {
            assert(s.drop_last()[p[k]] == sep);
        }
    }
}

/// The bounds of every piece of `s` split on `sep`: the pieces run between separators.
pub proof fn lemma_piece_bounds(s: Seq<char>, sep: char)
    ensures
        forall|k: int| 0 <= k <= sep_positions(s, sep).len() ==> 0 <= #[trigger] piece_start(s, sep, k)
            <= piece_end(s, sep, k) <= s.len(),
{
    lemma_sep_positions(s, sep);
    let p = sep_positions(s, sep);
    assert forall|k: int| 0 <= k <= p.len() implies 0 <= #[trigger] piece_start(s, sep, k)
        <= piece_end(s, sep, k) <= s.len() by {
        if k > 0 && k < p.len() {
            assert(p[k - 1] < p[k]);
        }
    }
}

/// The bounds `(start, end)` of the pieces of `s` split on `sep`.
pub fn split_bounds(s: &Vec<char>, sep: char) -> (res: Vec<(usize, usize)>)
    ensures
        res@.len() == sep_positions(s@, sep).len() + 1,
        forall|k: int| 0 <= k < res@.len() ==> (#[trigger] res@[k]).0 == piece_start(s@, sep, k)
            && res@[k].1 == piece_end(s@, sep, k),
{
    let mut res: Vec<(usize, usize)> = Vec::new();
    let mut start: usize = 0;
    let mut k: usize = 0;
    while k < s.len()
        invariant
            k <= s@.len(),
            res@.len() == sep_positions(s@.take(k as int), sep).len(),
            forall|m: int| 0 <= m < res@.len() ==> (#[trigger] res@[m]).0 == piece_start(s@.take(k as int), sep, m)
                && res@[m].1 == piece_end(s@.take(k as int), sep, m),
            start == piece_start(s@.take(k as int), sep, res@.len() as int),
        decreases s@.len() - k,
    {
        let ghost pre = s@.take(k as int);
        let ghost post = s@.take(k as int + 1);
        assert(post.drop_last() =~= pre);
        if s[k] == sep {
            res.push((start, k));
            start = k + 1;
        }
        proof {
            let pp = sep_positions(pre, sep);
            assert forall|m: int| 0 <= m < res@.len() implies (#[trigger] res@[m]).0 == piece_start(post, sep, m)
                && res@[m].1 == piece_end(post, sep, m) by {
                if m < pp.len() {
                    assert(sep_positions(post, sep)[m] == pp[m]);
                    if m > 0 {
                        assert(sep_positions(post, sep)[m - 1] == pp[m - 1]);
                    }
                }
            }
            if res@.len() > 0 {
                assert(sep_positions(post, sep)[res@.len() - 1] == sep_positions(post, sep).last());
            }
        }
        k = k + 1;
    }
    assert(s@.take(s@.len() as int) =~= s@);
    res.push((start, s.len()));
    res
}

/// Narrows `s[from..to]` to its text without leading and trailing whitespace.
pub fn trim_bounds(s: &Vec<char>, from: usize, to: usize) -> (res: (usize, usize))
    requires
        from <= to <= s@.len(),
    ensures
        from <= res.0 <= res.1 <= to,
        s@.subrange(res.0 as int, res.1 as int) == trim(s@.subrange(from as int, to as int)),
{
    let mut a = from;
    while a < to && is_whitespace_char(s[a])
        invariant
            from <= a <= to <= s@.len(),
            trim_start(s@.subrange(from as int, to as int)) == trim_start(s@.subrange(a as int, to as int)),
        decreases to - a,
    {
        assert(s@.subrange(a as int, to as int).drop_first() =~= s@.subrange(a as int + 1, to as int));
        a = a + 1;
    }
    assert(trim_start(s@.subrange(a as int, to as int)) == s@.subrange(a as int, to as int));
    let mut b = to;
    while b > a && is_whitespace_char(s[b - 1])
        invariant
            from <= a <= b <= to <= s@.len(),
            trim(s@.subrange(from as int, to as int)) == trim_end(s@.subrange(a as int, b as int)),
        decreases b - a,
    {
        assert(s@.subrange(a as int, b as int).drop_last() =~= s@.subrange(a as int, b as int - 1));
        b = b - 1;
    }
    (a, b)
}

/// Whether `c` is whitespace, as `char::is_whitespace` says.
pub fn is_whitespace_char(c: char) -> (res: bool)
    ensures
        res == is_whitespace(c),
{
    c == ' ' || ('\t' <= c && c <= '\r') || c == '\u{85}' || c == '\u{a0}' || c == '\u{1680}'
        || ('\u{2000}' <= c && c <= '\u{200a}') || c == '\u{2028}' || c == '\u{2029}' || c == '\u{202f}'
        || c == '\u{205f}' || c == '\u{3000}'
}

/// Whether `s[from..to]` is the text `lit`.
pub fn range_is(s: &Vec<char>, from: usize, to: usize, lit: &str) -> (res: bool)
    requires
        from <= to <= s@.len(),
    ensures
        res == (s@.subrange(from as int, to as int) == lit@),
{
    let l = chars_of(lit);
    if l.len() != to - from {
        return false;
    }
    let mut k: usize = 0;
    while k < l.len()
        invariant
            l@ == lit@,
            l@.len() == to - from,
            from <= to <= s@.len(),
            k <= l@.len(),
            forall|m: int| 0 <= m < k ==> s@[from + m] == l@[m],
        decreases l@.len() - k,
    {
        if s[from + k] != l[k] {
            return false;
        }
        k = k + 1;
    }
    assert(s@.subrange(from as int, to as int) =~= lit@);
    true
}

/// The one-character text of a decimal digit.
fn digit_str(d: u64) -> (s: &'static str)
    requires
        d < 10,
    ensures
        s@ == seq![digit_char(d as nat)],
{
    proof {
        reveal_strlit("0");
        reveal_strlit("1");
        reveal_strlit("2");
        reveal_strlit("3");
        reveal_strlit("4");
        reveal_strlit("5");
        reveal_strlit("6");
        reveal_strlit("7");
        reveal_strlit("8");
        reveal_strlit("9");
    }
    if d == 0 {
        "0"
    } else if d == 1 {
        "1"
    } else if d == 2 {
        "2"
    } else if d == 3 {
        "3"
    } else if d == 4 {
        "4"
    } else if d == 5 {
        "5"
    } else if d == 6 {
        "6"
    } else if d == 7 {
        "7"
    } else if d == 8 {
        "8"
    } else {
        "9"
    }
}

/// Appends the decimal text of `v` to `out`.
pub fn push_decimal(out: &mut String, v: u64)
    ensures
        final(out)@ == old(out)@ + decimal(v as nat),
    decreases v,
{
    if v < 10 {
        out.append(digit_str(v));
    } else {
        push_decimal(out, v / 10);
        out.append(digit_str(v % 10));
        assert(decimal(v as nat) == decimal((v / 10) as nat).push(digit_char((v % 10) as nat)));
        assert(old(out)@ + decimal((v / 10) as nat) + seq![digit_char((v % 10) as nat)] =~= old(out)@ + decimal(v as nat));
    }
}

/// The decimal text of `v`, as `to_string` writes it.
pub fn decimal_text(v: u64) -> (s: String)
    ensures
        s@ == decimal(v as nat),
{
    let mut s = String::new();
    push_decimal(&mut s, v);
    assert(s@ =~= decimal(v as nat));
    s
}

/// The characters of `s`.
pub fn chars_of(s: &str) -> (res: Vec<char>)
    ensures
        res@ == s@,
{
    let mut res: Vec<char> = Vec::new();
    for c in it: s.chars()
        invariant
            it.seq() == s@,
            res@ == s@.take(it.index() as int),
    {
        assert(s@.take(it.index() as int + 1) =~= res@.push(c));
        res.push(c);
    }
    assert(s@.take(s@.len() as int) =~= s@);
    res
}

/// Whether two texts are equal.
pub fn text_eq(a: &str, b: &str) -> (res: bool)
    ensures
        res == (a@ == b@),
{
    let ca = chars_of(a);
    let cb = chars_of(b);
    if ca.len() != cb.len() {
        return false;
    }
    let mut k: usize = 0;
    while k < ca.len()
        invariant
            ca@ == a@,
            cb@ == b@,
            ca@.len() == cb@.len(),
            k <= ca@.len(),
            forall|m: int| 0 <= m < k ==> ca@[m] == cb@[m],
        decreases ca@.len() - k,
    {
        if ca[k] != cb[k] {
            return false;
        }
        k = k + 1;
    }
    assert(a@ =~= b@);
    true
}

/// Reads an unsigned integer no greater than `max` from `s[from..to]`, as `str::parse` does.
pub fn parse_unsigned_in(s: &Vec<char>, from: usize, to: usize, max: u64) -> (res: Option<u64>)
    requires
        from <= to <= s@.len(),
    ensures
        match parse_unsigned(s@.subrange(from as int, to as int), max as nat) {
            Some(v) => res == Some(v as u64),
            None => res is None,
        },
{
    let ghost t = s@.subrange(from as int, to as int);
    let mut start = from;
    if from < to && s[from] == '+' {
        start = from + 1;
    }
    let ghost body = s@.subrange(start as int, to as int);
    assert(body == unsigned_body(t));
    if start == to {
        return None;
    }
    let mut k: usize = start;
    let mut value: u64 = 0;
    while k < to
        invariant
            from <= start <= k <= to <= s@.len(),
            start < to,
            body == s@.subrange(start as int, to as int),
            t == s@.subrange(from as int, to as int),
            body == unsigned_body(t),
            forall|m: int| start <= m < k ==> is_digit(#[trigger] s@[m]),
            value == digits_value(s@.subrange(start as int, k as int)),
            value <= max,
        decreases to - k,
    {
        let c = s[k];
        assert(body[k - start] == s@[k as int]);
        if !('0' <= c && c <= '9') {
            let ghost kk: int = k - start;
            assert(0 <= kk < body.len() && !is_digit(body[kk]));
            assert(!all_digits(body));
            assert(parse_unsigned(t, max as nat) is None);
            return None;
        }
        let d = (c as u32 - '0' as u32) as u64;
        assert(s@.subrange(start as int, k as int + 1).drop_last() =~= s@.subrange(start as int, k as int));
        assert(d == digit_value(c));
        let nv: u128 = value as u128 * 10 + d as u128;
        if nv > max as u128 {
            proof {
                let pre = s@.subrange(start as int, k as int + 1);
                assert(pre.last() == c);
                assert(digits_value(pre) == digits_value(pre.drop_last()) * 10 + digit_value(pre.last()));
                assert(digits_value(pre) == nv);
                if all_digits(body) {
                    lemma_digits_prefix(body, k + 1 - start);
                    assert(body.take(k + 1 - start) =~= pre);
                    assert(digits_value(body) > max);
                }
                assert(parse_unsigned(t, max as nat) is None);
            }
            return None;
        }
        value = nv as u64;
        k = k + 1;
    }
    assert(body =~= s@.subrange(start as int, k as int));
    Some(value)
}

/// Why `s[from..to]` is refused as an unsigned number no greater than `max`.
pub fn number_error_in(s: &Vec<char>, from: usize, to: usize, max: u64) -> (e: NumberError)
    requires
        from <= to <= s@.len(),
    ensures
        e == number_error(s@.subrange(from as int, to as int), max as nat),
{
    if from == to {
        return NumberError::Empty;
    }
    let ghost t = s@.subrange(from as int, to as int);
    let mut start = from;
    if s[from] == '+' {
        start = from + 1;
    }
    let ghost body = s@.subrange(start as int, to as int);
    assert(body == unsigned_body(t));
    let mut k: usize = start;
    let mut value: u64 = 0;
    while k < to
        invariant
            from <= start <= k <= to <= s@.len(),
            body == s@.subrange(start as int, to as int),
            body == unsigned_body(t),
            t == s@.subrange(from as int, to as int),
            t.len() > 0,
            value == digits_value(body.take(k - start)),
            value <= max,
            first_fault(body, max as nat, 0) == first_fault(body, max as nat, (k - start) as nat),
        decreases to - k,
    {
        let c = s[k];
        assert(body[k - start] == c);
        if !('0' <= c && c <= '9') {
            return NumberError::InvalidDigit;
        }
        let d = (c as u32 - '0' as u32) as u64;
        assert(d == digit_value(c));
        let ghost j: int = k - start;
        assert(body.take(j + 1).drop_last() =~= body.take(j));
        assert(body.take(j + 1).last() == c);
        let nv: u128 = value as u128 * 10 + d as u128;
        assert(digits_value(body.take(j + 1)) == nv);
        if nv > max as u128 {
            return NumberError::TooLarge;
        }
        value = nv as u64;
        k = k + 1;
    }
    NumberError::InvalidDigit
}

/// Reads `s[from..to]` as an unsigned number no greater than `max`, as
/// `str::parse` does, or says why it cannot.
pub fn parse_number_in(s: &Vec<char>, from: usize, to: usize, max: u64) -> (res: Result<u64, NumberError>)
    requires
        from <= to <= s@.len(),
    ensures
        match parse_unsigned(s@.subrange(from as int, to as int), max as nat) {
            Some(v) => res == Ok::<u64, NumberError>(v as u64),
            None => res == Err::<u64, NumberError>(number_error(s@.subrange(from as int, to as int), max as nat)),
        },
{
    match parse_unsigned_in(s, from, to, max) {
        Some(v) => Ok(v),
        None => Err(number_error_in(s, from, to, max)),
    }
}

/// A digit's character is a digit of that value.
pub proof fn lemma_digit_char(d: nat)
    requires
        d < 10,
    ensures
        is_digit(digit_char(d)),
        digit_value(digit_char(d)) == d,
{
}

/// The decimal text of a number is a non-empty run of digits worth the number.
pub proof fn lemma_decimal(n: nat)
    ensures
        decimal(n).len() >= 1,
        all_digits(decimal(n)),
        digits_value(decimal(n)) == n,
    decreases n,
{
    if n < 10 {
        lemma_digit_char(n);
        assert(decimal(n).drop_last() =~= Seq::<char>::empty());
        assert(digits_value(Seq::<char>::empty()) == 0);
    } else {
        lemma_decimal(n / 10);
        lemma_digit_char(n % 10);
        let d = decimal(n / 10);
        let s = d.push(digit_char(n % 10));
        assert(s.drop_last() =~= d);
        assert forall|k: int| 0 <= k < s.len() implies is_digit(#[trigger] s[k]) by {
            if k < d.len() {
                assert(s[k] == d[k]);
            }
        }
        assert(digits_value(s) == digits_value(d) * 10 + digit_value(digit_char(n % 10)));
    }
}

/// The decimal text of a number reads back as that number.
pub proof fn law_decimal_parses_back(n: nat, max: nat)
    requires
        n <= max,
    ensures
        parse_unsigned(decimal(n), max) == Some(n),
{
    lemma_decimal(n);
    let s = decimal(n);
    if s.len() > 0 && s[0] == '+' {
        assert(is_digit(s[0]));
    }
}

/// Distinct numbers have distinct decimal texts.
pub proof fn lemma_decimal_injective(a: nat, b: nat)
    requires
        decimal(a) == decimal(b),
    ensures
        a == b,
{
    lemma_decimal(a);
    lemma_decimal(b);
}

/// Appending digits never makes a run of digits smaller.
pub proof fn lemma_digits_prefix(s: Seq<char>, k: int)
    requires
        0 <= k <= s.len(),
        forall|m: int| 0 <= m < s.len() ==> is_digit(#[trigger] s[m]),
    ensures
        digits_value(s.take(k)) <= digits_value(s),
    decreases s.len() - k,
{
    if k < s.len() {
        lemma_digits_prefix(s, k + 1);
        assert(s.take(k + 1).drop_last() =~= s.take(k));
    } else {
        assert(s.take(k) =~= s);
    }
}

} // verus!
