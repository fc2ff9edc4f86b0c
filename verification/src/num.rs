//! Decimal rendering and parsing of the integers that appear in wire
//! records, with round-trip proofs: parsing a rendered number yields the
//! number back.

use vstd::prelude::*;

verus! {

/// A decimal digit character.
pub open spec fn is_digit(c: char) -> bool {
    48 <= c as u32 <= 57
}

/// Numeric value of a digit character.
pub open spec fn digit_val(c: char) -> nat
    recommends
        is_digit(c),
{
    (c as u32 - 48) as nat
}

/// The digit character for a value below ten.
pub open spec fn char_of_digit(d: nat) -> char
    recommends
        d < 10,
{
    if d == 0 {
        '0'
    } else if d == 1 {
        '1'
    } else if d == 2 {
        '2'
    } else if d == 3 {
        '3'
    } else if d == 4 {
        '4'
    } else if d == 5 {
        '5'
    } else if d == 6 {
        '6'
    } else if d == 7 {
        '7'
    } else if d == 8 {
        '8'
    } else {
        '9'
    }
}

/// The shortest decimal rendering of a natural number.
pub open spec fn dec_digits(n: nat) -> Seq<char>
    decreases n,
{
    if n < 10 {
        seq![char_of_digit(n)]
    } else {
        dec_digits(n / 10) + seq![char_of_digit(n % 10)]
    }
}

/// The decimal rendering of an integer: a minus sign before the
/// magnitude when negative.
pub open spec fn int_digits(n: int) -> Seq<char> {
    if n < 0 {
        seq!['-'] + dec_digits((-n) as nat)
    } else {
        dec_digits(n as nat)
    }
}

/// Every character of `s` is a decimal digit.
pub open spec fn all_digits(s: Seq<char>) -> bool {
    forall|i: int| 0 <= i < s.len() ==> is_digit(#[trigger] s[i])
}

/// The value of a string of decimal digits.
pub open spec fn dec_value(s: Seq<char>) -> nat
    decreases s.len(),
{
    if s.len() == 0 {
        0
    } else {
        dec_value(s.drop_last()) * 10 + digit_val(s.last())
    }
}

/// A signed integer token: an optional sign, then at least one digit.
pub open spec fn is_int_token(s: Seq<char>) -> bool {
    if s.len() == 0 {
        false
    } else if s[0] == '-' || s[0] == '+' {
        s.len() >= 2 && all_digits(s.skip(1))
    } else {
        all_digits(s)
    }
}

/// The magnitude of an integer token.
pub open spec fn token_mag(s: Seq<char>) -> nat
    recommends
        is_int_token(s),
{
    if s.len() > 0 && (s[0] == '-' || s[0] == '+') {
        dec_value(s.skip(1))
    } else {
        dec_value(s)
    }
}

/// The value of an integer token.
pub open spec fn token_int(s: Seq<char>) -> int
    recommends
        is_int_token(s),
{
    if s.len() > 0 && s[0] == '-' {
        -(token_mag(s) as int)
    } else {
        token_mag(s) as int
    }
}

/// What parsing an integer token into the range `lo ..= hi` yields:
/// the token's value when the token is well formed and the value is in
/// range, nothing otherwise.
pub open spec fn spec_parse_int(s: Seq<char>, lo: int, hi: int) -> Option<int> {
    if is_int_token(s) && lo <= token_int(s) <= hi {
        Some(token_int(s))
    } else {
        None
    }
}

/// `char_of_digit` and `digit_val` invert each other on digits.
pub proof fn lemma_digit_char_val(d: nat)
    requires
        d < 10,
    ensures
        is_digit(char_of_digit(d)),
        digit_val(char_of_digit(d)) == d,
{
}

/// The decimal rendering of `n` consists of digits and evaluates to `n`.
pub proof fn lemma_dec_digits_value(n: nat)
    ensures
        dec_digits(n).len() >= 1,
        all_digits(dec_digits(n)),
        dec_value(dec_digits(n)) == n,
    decreases n,
{
    if n < 10 {
        lemma_digit_char_val(n);
        let s = seq![char_of_digit(n)];
        assert(dec_digits(n) == s);
        assert(s.last() == char_of_digit(n));
        assert(s.drop_last() =~= Seq::<char>::empty());
        assert(dec_value(s.drop_last()) == 0);
        assert(dec_value(s) == 0 * 10 + digit_val(char_of_digit(n)));
    } else {
        lemma_dec_digits_value(n / 10);
        lemma_digit_char_val(n % 10);
        let prefix = dec_digits(n / 10);
        let whole = prefix + seq![char_of_digit(n % 10)];
        assert(whole.drop_last() =~= prefix);
        assert(whole.last() == char_of_digit(n % 10));
        assert(dec_value(whole) == dec_value(prefix) * 10 + (n % 10));
        assert((n / 10) * 10 + n % 10 == n) by {
            vstd::arithmetic::div_mod::lemma_fundamental_div_mod(n as int, 10);
        }
    }
}

/// Parsing the rendering of an in-range integer yields the integer back.
pub proof fn lemma_int_digits_round_trip(n: int, lo: int, hi: int)
    requires
        lo <= n <= hi,
    ensures
        spec_parse_int(int_digits(n), lo, hi) == Some(n),
{
    if n < 0 {
        lemma_dec_digits_value((-n) as nat);
        let s = seq!['-'] + dec_digits((-n) as nat);
        assert(s[0] == '-');
        assert(s.skip(1) =~= dec_digits((-n) as nat));
        assert(token_int(s) == n);
    } else {
        lemma_dec_digits_value(n as nat);
        let s = dec_digits(n as nat);
        assert(is_digit(s[0]));
        assert(s[0] != '-' && s[0] != '+');
        assert(token_int(s) == n);
    }
}

/// Length of the longest digit prefix of `s`.
pub open spec fn digit_prefix_len(s: Seq<char>) -> int
    decreases s.len(),
{
    if s.len() == 0 || !is_digit(s[0]) {
        0
    } else {
        1 + digit_prefix_len(s.skip(1))
    }
}

/// The lower-case code of a character: ASCII letters fold, every other
/// character keeps its code.
pub open spec fn lower_code(c: char) -> u32 {
    if 65 <= c as u32 <= 90 {
        (c as u32 + 32) as u32
    } else {
        c as u32
    }
}

/// `s` spells the lower-case word `w`, ignoring ASCII case.
pub open spec fn eq_ignore_case(s: Seq<char>, w: Seq<char>) -> bool {
    s.len() == w.len() && forall|i: int|
        0 <= i < s.len() ==> lower_code(#[trigger] s[i]) == w[i] as u32
}

/// An exponent part: `e` or `E`, an optional sign, then digits to the
/// end.
pub open spec fn is_exponent(t: Seq<char>) -> bool {
    &&& t.len() >= 2
    &&& (t[0] == 'e' || t[0] == 'E')
    &&& ({
        let d = if t[1] == '+' || t[1] == '-' {
            t.skip(2)
        } else {
            t.skip(1)
        };
        d.len() >= 1 && all_digits(d)
    })
}

/// A decimal mantissa with an optional fraction and exponent: digits,
/// digits-point-digits, point-digits or digits-point, each optionally
/// followed by an exponent.
pub open spec fn is_decimal_number(s: Seq<char>) -> bool {
    let k = digit_prefix_len(s);
    if k == s.len() {
        k >= 1
    } else if s[k] == '.' {
        let f = digit_prefix_len(s.skip(k + 1));
        let rest = k + 1 + f;
        &&& k + f >= 1
        &&& (rest == s.len() || is_exponent(s.skip(rest)))
    } else {
        k >= 1 && is_exponent(s.skip(k))
    }
}

/// The body of a numeral after its sign: one of the infinity or
/// not-a-number words in any letter case, or a decimal number. This is
/// the textual grammar the 32-bit float parser accepts.
pub open spec fn is_num_body(s: Seq<char>) -> bool {
    ||| eq_ignore_case(s, seq!['i', 'n', 'f'])
    ||| eq_ignore_case(s, seq!['i', 'n', 'f', 'i', 'n', 'i', 't', 'y'])
    ||| eq_ignore_case(s, seq!['n', 'a', 'n'])
    ||| is_decimal_number(s)
}

/// A numeral token, as accepted for position coordinates: an optional
/// sign, then a numeral body.
pub open spec fn is_num_token(s: Seq<char>) -> bool {
    if s.len() > 0 && (s[0] == '-' || s[0] == '+') {
        is_num_body(s.skip(1))
    } else {
        is_num_body(s)
    }
}

/// The digit prefix is exactly the run of digits before the first
/// non-digit.
proof fn lemma_digit_prefix_characterization(s: Seq<char>, k: int)
    requires
        0 <= k <= s.len(),
        all_digits(s.take(k)),
        k == s.len() || !is_digit(s[k]),
    ensures
        digit_prefix_len(s) == k,
    decreases s.len(),
{
    if k == 0 {
        if s.len() > 0 {
            assert(!is_digit(s[0]));
        }
    } else {
        assert(is_digit(s.take(k)[0]));
        assert(s[0] == s.take(k)[0]);
        let t = s.skip(1);
        assert(t.take(k - 1) =~= s.take(k).skip(1));
        assert(all_digits(t.take(k - 1))) by {
            assert(forall|i: int|
                0 <= i < k - 1 ==> s.take(k).skip(1)[i] == s.take(k)[i + 1]);
        }
        if k < s.len() {
            assert(t[k - 1] == s[k]);
        }
        lemma_digit_prefix_characterization(t, k - 1);
    }
}

/// Every character of the digit prefix is a digit.
proof fn lemma_digit_prefix_digits(s: Seq<char>)
    ensures
        0 <= digit_prefix_len(s) <= s.len(),
        all_digits(s.take(digit_prefix_len(s))),
        digit_prefix_len(s) < s.len() ==> !is_digit(s[digit_prefix_len(s)]),
    decreases s.len(),
{
    if s.len() == 0 || !is_digit(s[0]) {
        assert(s.take(0) =~= Seq::<char>::empty());
    } else {
        let t = s.skip(1);
        lemma_digit_prefix_digits(t);
        let k = digit_prefix_len(s);
        assert(k == 1 + digit_prefix_len(t));
        assert(s.take(k).skip(1) =~= t.take(k - 1));
        assert(all_digits(s.take(k))) by {
            assert(forall|i: int|
                1 <= i < k ==> s.take(k)[i] == t.take(k - 1)[i - 1]);
        }
        if k < s.len() {
            assert(s[k] == t[k - 1]);
        }
    }
}

/// An exponent part contains no field separator.
proof fn lemma_exponent_no_sep(t: Seq<char>)
    requires
        is_exponent(t),
    ensures
        forall|i: int| 0 <= i < t.len() ==> !crate::fields::is_sep(#[trigger] t[i]),
{
    assert forall|i: int| 0 <= i < t.len() implies !crate::fields::is_sep(#[trigger] t[i]) by {
        if i == 0 {
            assert(t[0] == 'e' || t[0] == 'E');
        } else if t[1] == '+' || t[1] == '-' {
            if i >= 2 {
                assert(t.skip(2)[i - 2] == t[i]);
                assert(is_digit(t[i]));
            }
        } else {
            assert(t.skip(1)[i - 1] == t[i]);
            assert(is_digit(t[i]));
        }
    }
}

/// A case-folded word spelled with small letters holds no field
/// separator.
proof fn lemma_word_no_sep(s: Seq<char>, w: Seq<char>)
    requires
        eq_ignore_case(s, w),
        forall|i: int| 0 <= i < w.len() ==> (#[trigger] w[i]) as u32 >= 97,
    ensures
        forall|i: int| 0 <= i < s.len() ==> !crate::fields::is_sep(#[trigger] s[i]),
{
    assert forall|i: int| 0 <= i < s.len() implies !crate::fields::is_sep(#[trigger] s[i]) by {
        assert(lower_code(s[i]) == w[i] as u32);
        // The separators keep their small codes under folding.
        assert(lower_code(',') == 44);
        assert(lower_code('\n') == 10);
    }
}

/// A numeral token contains no field separator.
pub proof fn lemma_num_token_no_sep(s: Seq<char>)
    requires
        is_num_token(s),
    ensures
        crate::fields::no_sep(s),
{
    let body = if s.len() > 0 && (s[0] == '-' || s[0] == '+') {
        s.skip(1)
    } else {
        s
    };
    let off = s.len() - body.len();
    if eq_ignore_case(body, seq!['i', 'n', 'f']) {
        lemma_word_no_sep(body, seq!['i', 'n', 'f']);
    } else if eq_ignore_case(body, seq!['i', 'n', 'f', 'i', 'n', 'i', 't', 'y']) {
        lemma_word_no_sep(body, seq!['i', 'n', 'f', 'i', 'n', 'i', 't', 'y']);
    } else if eq_ignore_case(body, seq!['n', 'a', 'n']) {
        lemma_word_no_sep(body, seq!['n', 'a', 'n']);
    } else {
        lemma_digit_prefix_digits(body);
        let k = digit_prefix_len(body);
        if k < body.len() && body[k] == '.' {
            lemma_digit_prefix_digits(body.skip(k + 1));
            let f = digit_prefix_len(body.skip(k + 1));
            let rest = k + 1 + f;
            if rest < body.len() {
                lemma_exponent_no_sep(body.skip(rest));
            }
            assert forall|j: int| 0 <= j < body.len() implies !crate::fields::is_sep(
                #[trigger] body[j],
            ) by {
                if j < k {
                    assert(body.take(k)[j] == body[j]);
                    assert(is_digit(body[j]));
                } else if j == k {
                } else if j < rest {
                    assert(body.skip(k + 1).take(f)[j - k - 1] == body[j]);
                    assert(is_digit(body[j]));
                } else {
                    assert(body.skip(rest)[j - rest] == body[j]);
                }
            }
        } else {
            if k < body.len() {
                lemma_exponent_no_sep(body.skip(k));
            }
            assert forall|j: int| 0 <= j < body.len() implies !crate::fields::is_sep(
                #[trigger] body[j],
            ) by {
                if j < k {
                    assert(body.take(k)[j] == body[j]);
                    assert(is_digit(body[j]));
                } else {
                    assert(body.skip(k)[j - k] == body[j]);
                }
            }
        }
    }
    assert forall|i: int| 0 <= i < s.len() implies !crate::fields::is_sep(s[i]) by {
        if i < off {
            assert(s[i] == '-' || s[i] == '+');
        } else {
            assert(body[i - off] == s[i]);
        }
    }
}

/// An integer rendering is a numeral token (a special case of the
/// position grammar).
pub proof fn lemma_int_digits_is_num_token(n: int)
    ensures
        is_num_token(int_digits(n)),
{
    if n < 0 {
        lemma_dec_digits_value((-n) as nat);
        let s = seq!['-'] + dec_digits((-n) as nat);
        let body = s.skip(1);
        assert(body =~= dec_digits((-n) as nat));
        assert(body.take(body.len() as int) =~= body);
        lemma_digit_prefix_characterization(body, body.len() as int);
        assert(is_decimal_number(body));
    } else {
        lemma_dec_digits_value(n as nat);
        let s = dec_digits(n as nat);
        assert(is_digit(s[0]));
        assert(s.take(s.len() as int) =~= s);
        lemma_digit_prefix_characterization(s, s.len() as int);
        assert(is_decimal_number(s));
    }
}

/// Whether the character at `i` is a decimal digit.
fn is_digit_at(s: &str, i: usize) -> (r: bool)
    requires
        i < s@.len(),
    ensures
        r == is_digit(s@[i as int]),
{
    let cv = s.get_char(i) as u32;
    48 <= cv && cv <= 57
}

/// Check whether everything from `from` on is one or more digits.
fn check_digits_from(s: &str, from: usize) -> (r: bool)
    requires
        from <= s@.len(),
    ensures
        r == (s@.len() > from && all_digits(s@.skip(from as int))),
{
    let n = s.unicode_len();
    if n == from {
        return false;
    }
    let mut i: usize = from;
    while i < n
        invariant
            from <= i <= n,
            n == s@.len() <= usize::MAX,
            all_digits(s@.skip(from as int).take(i - from)),
        decreases n - i,
    {
        let cv = s.get_char(i) as u32;
        if cv < 48 || cv > 57 {
            proof {
                assert(s@.skip(from as int)[i - from] == s@[i as int]);
            }
            return false;
        }
        proof {
            let w = s@.skip(from as int);
            assert(w.take(i - from + 1) =~= w.take(i - from).push(s@[i as int]));
        }
        i += 1;
    }
    proof {
        assert(s@.skip(from as int).take(n - from) =~= s@.skip(from as int));
    }
    true
}

/// The lower-case code of the character at `i`.
fn lower_code_at(s: &str, i: usize) -> (r: u32)
    requires
        i < s@.len(),
    ensures
        r == lower_code(s@[i as int]),
{
    let cv = s.get_char(i) as u32;
    if 65 <= cv && cv <= 90 {
        cv + 32
    } else {
        cv
    }
}

/// Whether the characters from `start` to the end spell the lower-case
/// word `w`, ignoring ASCII case.
fn word_at_ci(s: &str, start: usize, w: &str) -> (r: bool)
    requires
        start <= s@.len(),
    ensures
        r == eq_ignore_case(s@.skip(start as int), w@),
{
    let n = s.unicode_len();
    let m = w.unicode_len();
    if n - start != m {
        return false;
    }
    let mut i: usize = 0;
    while i < m
        invariant
            0 <= i <= m,
            m == w@.len(),
            n == s@.len() <= usize::MAX,
            n - start == m,
            forall|j: int|
                0 <= j < i ==> lower_code(#[trigger] s@.skip(start as int)[j]) == w@[j] as u32,
        decreases m - i,
    {
        let sc = lower_code_at(s, start + i);
        let wc = w.get_char(i) as u32;
        proof {
            assert(s@.skip(start as int)[i as int] == s@[start + i]);
        }
        if sc != wc {
            return false;
        }
        i += 1;
    }
    true
}

/// Whether everything from `i` on is an exponent part.
fn check_exponent_from(s: &str, i: usize) -> (r: bool)
    requires
        i <= s@.len(),
    ensures
        r == is_exponent(s@.skip(i as int)),
{
    let n = s.unicode_len();
    let ghost t = s@.skip(i as int);
    if n < 2 || i > n - 2 {
        proof {
            assert(t.len() < 2);
        }
        return false;
    }
    let c = s.get_char(i);
    proof {
        assert(t[0] == s@[i as int]);
        assert(t[1] == s@[i as int + 1]);
    }
    if c != 'e' && c != 'E' {
        return false;
    }
    let c1 = s.get_char(i + 1);
    let j: usize = if c1 == '+' || c1 == '-' {
        i + 2
    } else {
        i + 1
    };
    let r = check_digits_from(s, j);
    proof {
        if c1 == '+' || c1 == '-' {
            assert(t.skip(2) =~= s@.skip(j as int));
        } else {
            assert(t.skip(1) =~= s@.skip(j as int));
        }
    }
    r
}

/// Check a position coordinate token against the numeral grammar.
pub fn check_num_token(s: &str) -> (r: bool)
    ensures
        r == is_num_token(s@),
{
    let n = s.unicode_len();
    if n == 0 {
        return false;
    }
    let c0 = s.get_char(0);
    let start: usize = if c0 == '-' || c0 == '+' {
        1
    } else {
        0
    };
    let ghost body = s@.skip(start as int);
    proof {
        if start == 0 {
            assert(body =~= s@);
        }
        reveal_strlit("inf");
        reveal_strlit("infinity");
        reveal_strlit("nan");
        assert("inf"@ =~= seq!['i', 'n', 'f']);
        assert("infinity"@ =~= seq!['i', 'n', 'f', 'i', 'n', 'i', 't', 'y']);
        assert("nan"@ =~= seq!['n', 'a', 'n']);
    }
    if word_at_ci(s, start, "inf") {
        return true;
    }
    if word_at_ci(s, start, "infinity") {
        return true;
    }
    if word_at_ci(s, start, "nan") {
        return true;
    }
    // Scan the digit run of the mantissa.
    let mut i: usize = start;
    while i < n && is_digit_at(s, i)
        invariant
            start <= i <= n,
            n == s@.len() <= usize::MAX,
            body == s@.skip(start as int),
            all_digits(body.take(i - start)),
        decreases n - i,
    {
        proof {
            assert(body[i - start] == s@[i as int]);
            assert(body.take(i - start + 1) =~= body.take(i - start).push(s@[i as int]));
        }
        i += 1;
    }
    proof {
        if i < n {
            assert(body[i - start] == s@[i as int]);
        }
        lemma_digit_prefix_characterization(body, i - start);
    }
    let k = i - start;
    if i == n {
        return k >= 1;
    }
    let c = s.get_char(i);
    if c == '.' {
        proof {
            assert(body[k as int] == '.');
        }
        // Scan the digit run of the fraction.
        let ghost frac = body.skip(k as int + 1);
        proof {
            assert(frac =~= s@.skip(i as int + 1));
        }
        let mut j: usize = i + 1;
        while j < n && is_digit_at(s, j)
            invariant
                i + 1 <= j <= n,
                i < n,
                n == s@.len() <= usize::MAX,
                frac == s@.skip(i as int + 1),
                all_digits(frac.take(j - i - 1)),
            decreases n - j,
        {
            proof {
                assert(frac[j - i - 1] == s@[j as int]);
                assert(frac.take(j - i) =~= frac.take(j - i - 1).push(s@[j as int]));
            }
            j += 1;
        }
        proof {
            if j < n {
                assert(frac[j - i - 1] == s@[j as int]);
            }
            lemma_digit_prefix_characterization(frac, j - i - 1);
        }
        let f = j - i - 1;
        if k == 0 && f == 0 {
            return false;
        }
        if j == n {
            return true;
        }
        let r = check_exponent_from(s, j);
        proof {
            assert(body.skip(k as int + 1 + f) =~= s@.skip(j as int));
        }
        r
    } else {
        if k == 0 {
            return false;
        }
        let r = check_exponent_from(s, i);
        proof {
            assert(body.skip(k as int) =~= s@.skip(i as int));
        }
        r
    }
}

/// The digit string for a value below ten.
fn digit_str(d: u8) -> (r: &'static str)
    requires
        d < 10,
    ensures
        r@ == seq![char_of_digit(d as nat)],
{
    proof {
        reveal_strlit("0");
        reveal_strlit("1");
        reveal_strlit("2");
        reveal_strlit("3");
        reveal_strlit("4");
        reveal_strlit("5");
        reveal_strlit("6");
        reveal_strlit("7");
        reveal_strlit("8");
        reveal_strlit("9");
    }
    let r = if d == 0 {
        "0"
    } else if d == 1 {
        "1"
    } else if d == 2 {
        "2"
    } else if d == 3 {
        "3"
    } else if d == 4 {
        "4"
    } else if d == 5 {
        "5"
    } else if d == 6 {
        "6"
    } else if d == 7 {
        "7"
    } else if d == 8 {
        "8"
    } else {
        "9"
    };
    proof {
        assert(r@ =~= seq![char_of_digit(d as nat)]);
    }
    r
}

/// Render a natural number in decimal.
pub fn fmt_u64(n: u64) -> (r: String)
    ensures
        r@ == dec_digits(n as nat),
    decreases n,
{
    if n < 10 {
        digit_str(n as u8).to_owned()
    } else {
        let mut s = fmt_u64(n / 10);
        s.append(digit_str((n % 10) as u8));
        proof {
            assert(s@ =~= dec_digits(n as nat));
        }
        s
    }
}

/// Render a signed 64-bit integer in decimal.
pub fn fmt_i64(n: i64) -> (r: String)
    ensures
        r@ == int_digits(n as int),
{
    if n >= 0 {
        fmt_u64(n as u64)
    } else {
        let mag: u64 = (-(n as i128)) as u64;
        let mut s = "-".to_owned();
        proof {
            reveal_strlit("-");
        }
        s.append(fmt_u64(mag).as_str());
        proof {
            assert(s@ =~= int_digits(n as int));
        }
        s
    }
}

/// Render a signed 32-bit integer in decimal.
pub fn fmt_i32(n: i32) -> (r: String)
    ensures
        r@ == int_digits(n as int),
{
    fmt_i64(n as i64)
}

/// Render an unsigned 32-bit integer in decimal.
pub fn fmt_u32(n: u32) -> (r: String)
    ensures
        r@ == dec_digits(n as nat),
{
    fmt_u64(n as u64)
}

/// Render a signed 8-bit integer in decimal.
pub fn fmt_i8(n: i8) -> (r: String)
    ensures
        r@ == int_digits(n as int),
{
    fmt_i64(n as i64)
}

/// Render an unsigned 8-bit integer in decimal.
pub fn fmt_u8(n: u8) -> (r: String)
    ensures
        r@ == dec_digits(n as nat),
{
    fmt_u64(n as u64)
}

/// A digit prefix keeps its value below the value of the whole string.
proof fn lemma_dec_value_prefix_le(s: Seq<char>, i: int)
    requires
        0 <= i <= s.len(),
    ensures
        dec_value(s.take(i)) <= dec_value(s),
    decreases s.len() - i,
{
    if i < s.len() {
        lemma_dec_value_prefix_le(s, i + 1);
        let t = s.take(i + 1);
        assert(t.drop_last() =~= s.take(i));
        assert(dec_value(s.take(i + 1)) == dec_value(s.take(i)) * 10 + digit_val(t.last()));
    } else {
        assert(s.take(i) =~= s);
    }
}

/// Parse the digits of `s` from position `from` to the end as a natural
/// number. Yields the value exactly when everything from `from` on is a
/// digit, there is at least one, and the value fits in a `u64`.
fn parse_digits_from(s: &str, from: usize) -> (r: Option<u64>)
    requires
        from <= s@.len(),
    ensures
        match r {
            Some(v) => {
                &&& s@.len() > from
                &&& all_digits(s@.skip(from as int))
                &&& v == dec_value(s@.skip(from as int))
            },
            None => {
                ||| s@.len() == from
                ||| !all_digits(s@.skip(from as int))
                ||| dec_value(s@.skip(from as int)) > u64::MAX
            },
        },
{
    let n = s.unicode_len();
    if n == from {
        return None;
    }
    let ghost whole = s@.skip(from as int);
    let mut acc: u64 = 0;
    let mut i: usize = from;
    while i < n
        invariant
            from <= i <= n,
            n == s@.len() <= usize::MAX,
            whole == s@.skip(from as int),
            all_digits(whole.take(i - from)),
            acc == dec_value(whole.take(i - from)),
        decreases n - i,
    {
        let c = s.get_char(i);
        let cv = c as u32;
        if cv < 48 || cv > 57 {
            proof {
                assert(whole[i - from] == s@[i as int]);
                assert(!is_digit(whole[i - from]));
            }
            return None;
        }
        let d: u64 = (cv - 48) as u64;
        let acc10 = match acc.checked_mul(10) {
            Some(v) => v,
            None => {
                proof {
                    let t = whole.take(i - from + 1);
                    assert(t.drop_last() =~= whole.take(i - from));
                    assert(dec_value(t) == acc * 10 + digit_val(t.last()));
                    lemma_dec_value_prefix_le(whole, i - from + 1);
                }
                return None;
            },
        };
        let acc2 = match acc10.checked_add(d) {
            Some(v) => v,
            None => {
                proof {
                    let t = whole.take(i - from + 1);
                    assert(t.drop_last() =~= whole.take(i - from));
                    assert(t.last() == s@[i as int]);
                    assert(dec_value(t) == acc * 10 + digit_val(t.last()));
                    lemma_dec_value_prefix_le(whole, i - from + 1);
                }
                return None;
            },
        };
        proof {
            let t = whole.take(i - from + 1);
            assert(t.drop_last() =~= whole.take(i - from));
            assert(t.last() == s@[i as int]);
            assert(is_digit(t.last()) && digit_val(t.last()) == d);
            assert(dec_value(t) == acc * 10 + d);
        }
        acc = acc2;
        i += 1;
    }
    proof {
        assert(whole.take(n - from) =~= whole);
    }
    Some(acc)
}

/// Parse an integer token into the range `lo ..= hi` (inclusive), both
/// bounds within `i64`. Mirrors `spec_parse_int`.
fn parse_int_in_range(s: &str, lo: i64, hi: i64) -> (r: Option<i64>)
    requires
        lo <= 0 <= hi,
    ensures
        match r {
            Some(v) => spec_parse_int(s@, lo as int, hi as int) == Some(v as int),
            None => spec_parse_int(s@, lo as int, hi as int) is None,
        },
{
    let n = s.unicode_len();
    if n == 0 {
        return None;
    }
    let c0 = s.get_char(0);
    let negative = c0 == '-';
    let signed = negative || c0 == '+';
    let start: usize = if signed {
        1
    } else {
        0
    };
    let mag = match parse_digits_from(s, start) {
        Some(v) => v,
        None => {
            proof {
                if start == 0 {
                    assert(s@.skip(0) =~= s@);
                }
            }
            return None;
        },
    };
    proof {
        if start == 0 {
            assert(s@.skip(0) =~= s@);
        }
        assert(is_int_token(s@));
        assert(token_mag(s@) == mag);
    }
    if negative {
        // The magnitude of `lo` fits in u64 because lo <= 0 is an i64.
        let lo_mag: u64 = (-(lo as i128)) as u64;
        if mag > lo_mag {
            return None;
        }
        let v: i64 = (-(mag as i128)) as i64;
        proof {
            assert(token_int(s@) == v as int);
        }
        Some(v)
    } else {
        if mag > hi as u64 {
            return None;
        }
        let v: i64 = mag as i64;
        proof {
            assert(token_int(s@) == v as int);
        }
        Some(v)
    }
}

/// Parse a signed 32-bit integer token.
pub fn parse_i32(s: &str) -> (r: Option<i32>)
    ensures
        match r {
            Some(v) => spec_parse_int(s@, i32::MIN as int, i32::MAX as int) == Some(v as int),
            None => spec_parse_int(s@, i32::MIN as int, i32::MAX as int) is None,
        },
{
    match parse_int_in_range(s, i32::MIN as i64, i32::MAX as i64) {
        Some(v) => Some(v as i32),
        None => None,
    }
}

/// Parse a signed 8-bit integer token.
pub fn parse_i8(s: &str) -> (r: Option<i8>)
    ensures
        match r {
            Some(v) => spec_parse_int(s@, i8::MIN as int, i8::MAX as int) == Some(v as int),
            None => spec_parse_int(s@, i8::MIN as int, i8::MAX as int) is None,
        },
{
    match parse_int_in_range(s, i8::MIN as i64, i8::MAX as i64) {
        Some(v) => Some(v as i8),
        None => None,
    }
}

/// Parse an unsigned 8-bit integer token.
pub fn parse_u8(s: &str) -> (r: Option<u8>)
    ensures
        match r {
            Some(v) => spec_parse_int(s@, 0, u8::MAX as int) == Some(v as int),
            None => spec_parse_int(s@, 0, u8::MAX as int) is None,
        },
{
    match parse_int_in_range(s, 0, u8::MAX as i64) {
        Some(v) => Some(v as u8),
        None => None,
    }
}

/// Parse an unsigned 64-bit integer token.
pub fn parse_u64(s: &str) -> (r: Option<u64>)
    ensures
        match r {
            Some(v) => spec_parse_int(s@, 0, u64::MAX as int) == Some(v as int),
            None => spec_parse_int(s@, 0, u64::MAX as int) is None,
        },
{
    let n = s.unicode_len();
    if n == 0 {
        return None;
    }
    let c0 = s.get_char(0);
    let negative = c0 == '-';
    let signed = negative || c0 == '+';
    let start: usize = if signed {
        1
    } else {
        0
    };
    let mag = match parse_digits_from(s, start) {
        Some(v) => v,
        None => {
            proof {
                if start == 0 {
                    assert(s@.skip(0) =~= s@);
                }
            }
            return None;
        },
    };
    proof {
        if start == 0 {
            assert(s@.skip(0) =~= s@);
        }
        assert(is_int_token(s@));
        assert(token_mag(s@) == mag);
    }
    if negative {
        if mag > 0 {
            return None;
        }
        proof {
            assert(token_int(s@) == 0);
        }
        Some(0)
    } else {
        Some(mag)
    }
}

/// Parse an unsigned 32-bit integer token.
pub fn parse_u32(s: &str) -> (r: Option<u32>)
    ensures
        match r {
            Some(v) => spec_parse_int(s@, 0, u32::MAX as int) == Some(v as int),
            None => spec_parse_int(s@, 0, u32::MAX as int) is None,
        },
{
    match parse_int_in_range(s, 0, u32::MAX as i64) {
        Some(v) => Some(v as u32),
        None => None,
    }
}

} // verus!
