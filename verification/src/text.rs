//! Character-level text handling: trimming, splitting, number parsing and formatting, and the
//! ordering that keeps screen descriptions sorted.
use vstd::prelude::*;

verus! {

broadcast use vstd::string::group_string_axioms;

// ---------------------------------------------------------------------------------------------
// Specifications
// ---------------------------------------------------------------------------------------------

/// Unicode `White_Space`, the set that `str::trim` removes.
pub open spec fn is_ws(c: char) -> bool {
    let u = c as u32;
    ||| 0x09 <= u <= 0x0D
    ||| u == 0x20
    ||| u == 0x85
    ||| u == 0xA0
    ||| u == 0x1680
    ||| 0x2000 <= u <= 0x200A
    ||| u == 0x2028
    ||| u == 0x2029
    ||| u == 0x202F
    ||| u == 0x205F
    ||| u == 0x3000
}

pub open spec fn trim_start(s: Seq<char>) -> Seq<char>
    decreases s.len(),
{
    if s.len() > 0 && is_ws(s[0]) {
        trim_start(s.drop_first())
    } else {
        s
    }
}

pub open spec fn trim_end(s: Seq<char>) -> Seq<char>
    decreases s.len(),
{
    if s.len() > 0 && is_ws(s.last()) {
        trim_end(s.drop_last())
    } else {
        s
    }
}

/// What `str::trim` leaves: the text without its leading and trailing white space.
pub open spec fn trim(s: Seq<char>) -> Seq<char> {
    trim_end(trim_start(s))
}

/// `s` with every trailing repetition of `p` removed (`str::trim_end_matches`).
pub open spec fn trim_end_matches(s: Seq<char>, p: Seq<char>) -> Seq<char>
    decreases s.len(),
{
    if p.len() > 0 && s.len() >= p.len() && s.subrange(s.len() - p.len(), s.len() as int) == p {
        trim_end_matches(s.subrange(0, s.len() - p.len()), p)
    } else {
        s
    }
}

/// The first index at which `c` occurs in `s`.
pub open spec fn first_index(s: Seq<char>, c: char) -> Option<int> {
    if exists|i: int| 0 <= i < s.len() && s[i] == c {
        Some(choose|i: int| 0 <= i < s.len() && s[i] == c && forall|j: int| 0 <= j < i ==> s[j] != c)
    } else {
        None
    }
}

/// `str::split_once` on a character: the text before and after its first occurrence.
pub open spec fn split_once(s: Seq<char>, c: char) -> Option<(Seq<char>, Seq<char>)> {
    match first_index(s, c) {
        Some(i) => Some((s.take(i), s.skip(i + 1))),
        None => None,
    }
}

pub open spec fn is_digit(c: char) -> bool {
    '0' <= c && c <= '9'
}

pub open spec fn digit_val(c: char) -> int {
    (c as int) - ('0' as int)
}

pub open spec fn all_digits(s: Seq<char>) -> bool {
    forall|i: int| 0 <= i < s.len() ==> is_digit(#[trigger] s[i])
}

/// The number that a run of decimal digits spells.
pub open spec fn digits_value(s: Seq<char>) -> int
    decreases s.len(),
{
    if s.len() == 0 {
        0
    } else {
        digits_value(s.drop_last()) * 10 + digit_val(s.last())
    }
}

pub open spec fn pow10(n: nat) -> int
    decreases n,
{
    if n == 0 {
        1
    } else {
        10 * pow10((n - 1) as nat)
    }
}

/// A leading sign, if any, and what follows it.
pub open spec fn split_sign(s: Seq<char>) -> (bool, Seq<char>) {
    if s.len() > 0 && s[0] == '-' {
        (true, s.drop_first())
    } else if s.len() > 0 && s[0] == '+' {
        (false, s.drop_first())
    } else {
        (false, s)
    }
}

/// What `i64::from_str` accepts: an optional sign and at least one decimal digit, with a value
/// that fits an `i64`.
pub open spec fn parse_int(s: Seq<char>) -> Option<int> {
    let (neg, body) = split_sign(s);
    if body.len() == 0 || !all_digits(body) {
        None
    } else {
        let v = if neg { -digits_value(body) } else { digits_value(body) };
        if i64::MIN <= v <= i64::MAX {
            Some(v)
        } else {
            None
        }
    }
}

/// The digits of a decimal fraction, scaled to `places` digits and truncated.
pub open spec fn frac_scaled(f: Seq<char>, places: nat) -> int {
    if f.len() >= places {
        digits_value(f.take(places as int))
    } else {
        digits_value(f) * pow10((places - f.len()) as nat)
    }
}

/// One when the first digit past `places` rounds the value away from zero.
pub open spec fn round_up(f: Seq<char>, places: nat) -> int {
    if f.len() > places && digit_val(f[places as int]) >= 5 {
        1
    } else {
        0
    }
}

/// A decimal number (`[+-]digits[.digits]`, at least one digit) as an integer count of
/// `10^-places`, rounded half away from zero; `None` for anything else, or for a magnitude that
/// does not fit an `i64`.
pub open spec fn parse_decimal(s: Seq<char>, places: nat) -> Option<int> {
    let (neg, body) = split_sign(s);
    let (ip, fp) = match split_once(body, '.') {
        Some(parts) => parts,
        None => (body, Seq::<char>::empty()),
    };
    if !all_digits(ip) || !all_digits(fp) || ip.len() + fp.len() == 0 {
        None
    } else {
        let mag = digits_value(ip) * pow10(places) + frac_scaled(fp, places) + round_up(fp, places);
        if mag <= i64::MAX {
            Some(if neg { -mag } else { mag })
        } else {
            None
        }
    }
}

pub open spec fn digit_char(d: int) -> char {
    ((d + ('0' as int)) as u32) as char
}

/// The decimal digits of a natural number, without leading zeros.
pub open spec fn nat_text(n: nat) -> Seq<char>
    decreases n,
{
    if n < 10 {
        seq![digit_char(n as int)]
    } else {
        nat_text(n / 10).push(digit_char((n % 10) as int))
    }
}

/// How `Display` writes an integer.
pub open spec fn int_text(i: int) -> Seq<char> {
    if i < 0 {
        seq!['-'] + nat_text((-i) as nat)
    } else {
        nat_text(i as nat)
    }
}

/// The last `k` decimal digits of `f`, zero-padded.
pub open spec fn padded_digits(f: nat, k: nat) -> Seq<char>
    decreases k,
{
    if k == 0 {
        Seq::empty()
    } else {
        padded_digits(f / 10, (k - 1) as nat).push(digit_char((f % 10) as int))
    }
}

pub open spec fn strip_trailing_zeros(s: Seq<char>) -> Seq<char>
    decreases s.len(),
{
    if s.len() > 0 && s.last() == '0' {
        strip_trailing_zeros(s.drop_last())
    } else {
        s
    }
}

/// A count of `10^-places` written as the shortest decimal that denotes it: no fraction when it
/// is whole, otherwise the fraction without its trailing zeros.
pub open spec fn fixed_text(v: int, places: nat) -> Seq<char> {
    let m = if v < 0 { -v } else { v };
    let whole = m / pow10(places);
    let frac = m % pow10(places);
    let sign = if v < 0 { seq!['-'] } else { Seq::<char>::empty() };
    if frac == 0 {
        sign + nat_text(whole as nat)
    } else {
        sign + nat_text(whole as nat) + seq!['.'] + strip_trailing_zeros(
            padded_digits(frac as nat, places),
        )
    }
}

/// The order of `String`'s `Ord`: lexicographic by code point.
pub open spec fn seq_lt(a: Seq<char>, b: Seq<char>) -> bool
    decreases a.len(),
{
    if a.len() == 0 {
        b.len() > 0
    } else if b.len() == 0 {
        false
    } else if a[0] == b[0] {
        seq_lt(a.drop_first(), b.drop_first())
    } else {
        (a[0] as int) < (b[0] as int)
    }
}

// ---------------------------------------------------------------------------------------------
// Lemmas
// ---------------------------------------------------------------------------------------------

pub proof fn lemma_seq_lt_irreflexive(a: Seq<char>)
    ensures
        !seq_lt(a, a),
    decreases a.len(),
{
    if a.len() > 0 {
        lemma_seq_lt_irreflexive(a.drop_first());
    }
}

pub proof fn lemma_seq_lt_transitive(a: Seq<char>, b: Seq<char>, c: Seq<char>)
    requires
        seq_lt(a, b),
        seq_lt(b, c),
    ensures
        seq_lt(a, c),
    decreases a.len(),
{
    if a.len() > 0 && b.len() > 0 && c.len() > 0 {
        if a[0] == b[0] && b[0] == c[0] {
            lemma_seq_lt_transitive(a.drop_first(), b.drop_first(), c.drop_first());
        }
    }
}

pub proof fn lemma_seq_lt_total(a: Seq<char>, b: Seq<char>)
    ensures
        seq_lt(a, b) || seq_lt(b, a) || a == b,
    decreases a.len(),
{
    if a.len() > 0 && b.len() > 0 {
        if a[0] == b[0] {
            lemma_seq_lt_total(a.drop_first(), b.drop_first());
            if a.drop_first() == b.drop_first() {
                assert(a =~= seq![a[0]] + a.drop_first());
                assert(b =~= seq![b[0]] + b.drop_first());
            }
        }
    } else if a.len() == 0 && b.len() == 0 {
        assert(a =~= b);
    }
}

pub proof fn lemma_seq_lt_asymmetric(a: Seq<char>, b: Seq<char>)
    requires
        seq_lt(a, b),
    ensures
        !seq_lt(b, a),
{
    if seq_lt(b, a) {
        lemma_seq_lt_transitive(a, b, a);
        lemma_seq_lt_irreflexive(a);
    }
}

pub proof fn lemma_digits_value_nonneg(s: Seq<char>)
    requires
        all_digits(s),
    ensures
        digits_value(s) >= 0,
    decreases s.len(),
{
    if s.len() > 0 {
        lemma_digits_value_nonneg(s.drop_last());
    }
}

pub proof fn lemma_digits_value_push(s: Seq<char>, c: char)
    ensures
        digits_value(s.push(c)) == digits_value(s) * 10 + digit_val(c),
{
    assert(s.push(c).drop_last() =~= s);
}

/// Appending digits never makes the value smaller.
pub proof fn lemma_digits_value_prefix(s: Seq<char>, k: int)
    requires
        all_digits(s),
        0 <= k <= s.len(),
    ensures
        digits_value(s.take(k)) <= digits_value(s),
    decreases s.len() - k,
{
    if k < s.len() {
        lemma_digits_value_prefix(s, k + 1);
        assert(s.take(k + 1) =~= s.take(k).push(s[k]));
        lemma_digits_value_push(s.take(k), s[k]);
        lemma_digits_value_nonneg(s.take(k));
    } else {
        assert(s.take(k) =~= s);
    }
}

pub proof fn lemma_pow10_pos(n: nat)
    ensures
        pow10(n) >= 1,
    decreases n,
{
    if n > 0 {
        lemma_pow10_pos((n - 1) as nat);
    }
}

pub proof fn lemma_trim_start_shape(s: Seq<char>)
    ensures
        exists|k: int|
            0 <= k <= s.len() && trim_start(s) == s.skip(k) && (forall|j: int|
                0 <= j < k ==> is_ws(#[trigger] s[j])) && (k < s.len() ==> !is_ws(s[k])),
    decreases s.len(),
{
    if s.len() > 0 && is_ws(s[0]) {
        lemma_trim_start_shape(s.drop_first());
        let k = choose|k: int|
            0 <= k <= s.drop_first().len() && trim_start(s.drop_first()) == s.drop_first().skip(k)
                && (forall|j: int| 0 <= j < k ==> is_ws(#[trigger] s.drop_first()[j])) && (k
                < s.drop_first().len() ==> !is_ws(s.drop_first()[k]));
        assert(s.drop_first().skip(k) =~= s.skip(k + 1));
        assert forall|j: int| 0 <= j < k + 1 implies is_ws(#[trigger] s[j]) by {
            if j > 0 {
                assert(s[j] == s.drop_first()[j - 1]);
            }
        }
        assert(k + 1 < s.len() ==> s[k + 1] == s.drop_first()[k]);
    } else {
        assert(s.skip(0) =~= s);
    }
}

// ---------------------------------------------------------------------------------------------
// What is written reads back
// ---------------------------------------------------------------------------------------------

proof fn lemma_digit_char(d: int)
    requires
        0 <= d < 10,
    ensures
        is_digit(digit_char(d)),
        digit_val(digit_char(d)) == d,
{
    assert(((d + ('0' as int)) as u32) as int == d + 48);
}

/// The digits of a natural number spell it.
pub proof fn lemma_nat_text(n: nat)
    ensures
        nat_text(n).len() > 0,
        all_digits(nat_text(n)),
        digits_value(nat_text(n)) == n,
    decreases n,
{
    let s = nat_text(n);
    if n < 10 {
        lemma_digit_char(n as int);
        assert(s.drop_last() =~= Seq::<char>::empty());
        assert(digits_value(s.drop_last()) == 0);
        assert(s.last() == digit_char(n as int));
    } else {
        lemma_nat_text(n / 10);
        lemma_digit_char((n % 10) as int);
        assert(s.drop_last() =~= nat_text(n / 10));
        assert(s.last() == digit_char((n % 10) as int));
        assert(digits_value(s) == digits_value(nat_text(n / 10)) * 10 + digit_val(s.last()));
        assert(n == (n / 10) * 10 + n % 10);
        assert forall|i: int| 0 <= i < s.len() implies is_digit(#[trigger] s[i]) by {
            if i < s.len() - 1 {
                assert(s[i] == nat_text(n / 10)[i]);
            }
        }
    }
}

/// An integer as `Display` writes it: an optional minus sign, then digits; and `i64::from_str`
/// reads it back.
pub proof fn lemma_int_text(i: int)
    ensures
        int_text(i).len() > 0,
        forall|k: int|
            0 <= k < int_text(i).len() ==> is_digit(#[trigger] int_text(i)[k]) || (k == 0 && i < 0
                && int_text(i)[k] == '-'),
        is_digit(int_text(i).last()),
        i64::MIN <= i <= i64::MAX ==> parse_int(int_text(i)) == Some(i),
{
    let t = int_text(i);
    if i < 0 {
        let n = nat_text((-i) as nat);
        lemma_nat_text((-i) as nat);
        assert(t =~= seq!['-'] + n);
        assert forall|k: int| 0 <= k < t.len() implies is_digit(#[trigger] t[k]) || (k == 0 && i < 0
            && t[k] == '-') by {
            if k > 0 {
                assert(t[k] == n[k - 1]);
            }
        }
        assert(t.last() == n.last());
        assert(split_sign(t) == (true, n)) by {
            assert(t.drop_first() =~= n);
        }
    } else {
        lemma_nat_text(i as nat);
        assert(!(t[0] == '-') && !(t[0] == '+')) by {
            assert(is_digit(t[0]));
        }
    }
}

/// Trimming text that neither begins nor ends with white space leaves it as it is.
pub proof fn lemma_trim_plain(s: Seq<char>)
    requires
        s.len() > 0,
        !is_ws(s[0]),
        !is_ws(s.last()),
    ensures
        trim(s) == s,
{
}

/// Splitting at the first occurrence of a character that the first part does not hold.
pub proof fn lemma_split_once_at(a: Seq<char>, c: char, b: Seq<char>)
    requires
        forall|k: int| 0 <= k < a.len() ==> a[k] != c,
    ensures
        split_once(a + seq![c] + b, c) == Some((a, b)),
{
    let s = a + seq![c] + b;
    assert(s[a.len() as int] == c);
    assert forall|j: int| 0 <= j < a.len() implies s[j] != c by {
        assert(s[j] == a[j]);
    }
    let i = choose|i: int| 0 <= i < s.len() && s[i] == c && forall|j: int| 0 <= j < i ==> s[j] != c;
    if i < a.len() {
        assert(s[i] == a[i]);
    } else if i > a.len() {
        assert(s[a.len() as int] == c);
    }
    assert(first_index(s, c) == Some(a.len() as int));
    assert(s.take(a.len() as int) =~= a);
    assert(s.skip(a.len() as int + 1) =~= b);
}

proof fn lemma_padded_digits(f: nat, k: nat)
    ensures
        padded_digits(f, k).len() == k,
        all_digits(padded_digits(f, k)),
        digits_value(padded_digits(f, k)) == f % (pow10(k) as nat),
    decreases k,
{
    lemma_pow10_pos(k);
    if k > 0 {
        let s = padded_digits(f, k);
        let d = padded_digits(f / 10, (k - 1) as nat);
        lemma_padded_digits(f / 10, (k - 1) as nat);
        lemma_digit_char((f % 10) as int);
        lemma_pow10_pos((k - 1) as nat);
        assert(s.drop_last() =~= d);
        assert(s.last() == digit_char((f % 10) as int));
        assert forall|i: int| 0 <= i < s.len() implies is_digit(#[trigger] s[i]) by {
            if i < s.len() - 1 {
                assert(s[i] == d[i]);
            }
        }
        assert(digits_value(s) == digits_value(d) * 10 + (f % 10));
        vstd::arithmetic::div_mod::lemma_mod_breakdown(f as int, 10, pow10((k - 1) as nat));
        assert(pow10(k) == 10 * pow10((k - 1) as nat));
    } else {
        assert(padded_digits(f, k) =~= Seq::<char>::empty());
    }
}

proof fn lemma_strip_trailing_zeros(s: Seq<char>)
    requires
        all_digits(s),
    ensures
        strip_trailing_zeros(s).len() <= s.len(),
        strip_trailing_zeros(s) == s.take(strip_trailing_zeros(s).len() as int),
        digits_value(s) == digits_value(strip_trailing_zeros(s)) * pow10(
            (s.len() - strip_trailing_zeros(s).len()) as nat,
        ),
        strip_trailing_zeros(s).len() > 0 ==> strip_trailing_zeros(s).last() != '0',
    decreases s.len(),
{
    if s.len() > 0 && s.last() == '0' {
        let d = s.drop_last();
        assert forall|i: int| 0 <= i < d.len() implies is_digit(#[trigger] d[i]) by {
            assert(d[i] == s[i]);
        }
        lemma_strip_trailing_zeros(d);
        let t = strip_trailing_zeros(d);
        assert(t =~= s.take(t.len() as int)) by {
            assert(t =~= d.take(t.len() as int));
        }
        let k = (d.len() - t.len()) as nat;
        assert((s.len() - t.len()) as nat == k + 1);
        assert(digits_value(s) == digits_value(d) * 10);
        assert(pow10(k + 1) == 10 * pow10(k));
        assert(digits_value(t) * pow10(k) * 10 == digits_value(t) * (10 * pow10(k))) by (nonlinear_arith);
    } else {
        assert(s.take(s.len() as int) =~= s);
    }
}

proof fn lemma_no_char(s: Seq<char>, c: char)
    requires
        forall|k: int| 0 <= k < s.len() ==> s[k] != c,
    ensures
        split_once(s, c) is None,
{
}

/// The fraction digits of a count of `10^-places`, without their trailing zeros, read back.
proof fn lemma_fixed_frac(frac: nat, places: nat)
    requires
        0 < frac < pow10(places),
    ensures
        ({
            let fp = strip_trailing_zeros(padded_digits(frac, places));
            &&& fp.len() > 0
            &&& all_digits(fp)
            &&& is_digit(fp.last())
            &&& frac_scaled(fp, places) == frac
            &&& round_up(fp, places) == 0
        }),
{
    lemma_pow10_pos(places);
    lemma_padded_digits(frac, places);
    let pd = padded_digits(frac, places);
    lemma_strip_trailing_zeros(pd);
    let fp = strip_trailing_zeros(pd);
    vstd::arithmetic::div_mod::lemma_small_mod(frac, pow10(places) as nat);
    assert forall|k: int| 0 <= k < fp.len() implies is_digit(#[trigger] fp[k]) by {
        assert(fp[k] == pd[k]);
    }
    if fp.len() == 0 {
        assert(digits_value(fp) == 0);
        assert(digits_value(pd) == 0);
    }
    assert(is_digit(fp.last())) by {
        assert(fp.last() == fp[fp.len() - 1]);
    }
    let k = (pd.len() - fp.len()) as nat;
    if fp.len() >= places {
        assert(fp.take(places as int) =~= fp);
        assert(k == 0);
    } else {
        assert((places - fp.len()) as nat == k);
    }
}

/// The unsigned part of a shortest decimal: digits, then a point and the fraction when there is one.
pub open spec fn fixed_body(m: nat, places: nat) -> Seq<char> {
    let whole = m / (pow10(places) as nat);
    let frac = m % (pow10(places) as nat);
    if frac == 0 {
        nat_text(whole)
    } else {
        nat_text(whole) + seq!['.'] + strip_trailing_zeros(padded_digits(frac, places))
    }
}

/// The parts `parse_decimal` finds in a body: the digits before the point and after it.
pub open spec fn decimal_parts(body: Seq<char>) -> (Seq<char>, Seq<char>) {
    match split_once(body, '.') {
        Some(parts) => parts,
        None => (body, Seq::<char>::empty()),
    }
}

#[verifier::rlimit(30)]
proof fn lemma_fixed_body(m: nat, places: nat)
    ensures
        fixed_body(m, places).len() > 0,
        is_digit(fixed_body(m, places)[0]),
        is_digit(fixed_body(m, places).last()),
        forall|k: int|
            0 <= k < fixed_body(m, places).len() ==> is_digit(#[trigger] fixed_body(m, places)[k])
                || fixed_body(m, places)[k] == '.',
        ({
            let (ip, fp) = decimal_parts(fixed_body(m, places));
            &&& all_digits(ip)
            &&& all_digits(fp)
            &&& ip.len() + fp.len() > 0
            &&& digits_value(ip) * pow10(places) + frac_scaled(fp, places) + round_up(fp, places) == m
        }),
{
    lemma_pow10_pos(places);
    let pp = pow10(places) as nat;
    let whole = m / pp;
    let frac = m % pp;
    let w = nat_text(whole);
    lemma_nat_text(whole);
    vstd::arithmetic::div_mod::lemma_fundamental_div_mod(m as int, pp as int);
    vstd::arithmetic::div_mod::lemma_mod_pos_bound(m as int, pp as int);
    assert(whole * pp == pp * whole) by (nonlinear_arith);
    let body = fixed_body(m, places);
    assert forall|k: int| 0 <= k < w.len() implies w[k] != '.' by {
        assert(is_digit(w[k]));
    }
    if frac == 0 {
        lemma_no_char(w, '.');
        assert(frac_scaled(Seq::<char>::empty(), places) == 0) by {
            if places == 0 {
                assert(Seq::<char>::empty().take(0) =~= Seq::<char>::empty());
            }
        }
    } else {
        lemma_fixed_frac(frac, places);
        let fp = strip_trailing_zeros(padded_digits(frac, places));
        lemma_split_once_at(w, '.', fp);
        assert(body.last() == fp.last());
        assert(body[0] == w[0]);
        assert forall|k: int| 0 <= k < body.len() implies is_digit(#[trigger] body[k]) || body[k] == '.' by {
            if k < w.len() {
                assert(body[k] == w[k]);
            } else if k > w.len() {
                assert(body[k] == fp[k - w.len() - 1]);
            }
        }
    }
}

/// The shortest decimal of a count of `10^-places`: an optional minus sign, digits, and a point
/// only before a fraction that ends in a nonzero digit; and `parse_decimal` reads it back.
#[verifier::rlimit(30)]
pub proof fn lemma_fixed_text(v: int, places: nat)
    requires
        i64::MIN < v <= i64::MAX,
    ensures
        fixed_text(v, places).len() > 0,
        forall|k: int|
            0 <= k < fixed_text(v, places).len() ==> is_digit(#[trigger] fixed_text(v, places)[k])
                || fixed_text(v, places)[k] == '.' || (k == 0 && fixed_text(v, places)[k] == '-'),
        is_digit(fixed_text(v, places)[0]) || fixed_text(v, places)[0] == '-',
        is_digit(fixed_text(v, places).last()),
        parse_decimal(fixed_text(v, places), places) == Some(v),
{
    let m = (if v < 0 { -v } else { v }) as nat;
    lemma_pow10_pos(places);
    lemma_fixed_body(m, places);
    let body = fixed_body(m, places);
    let t = fixed_text(v, places);
    if v < 0 {
        assert(t =~= seq!['-'] + body);
        assert(t.drop_first() =~= body);
        assert(split_sign(t) == (true, body));
    } else {
        assert(t =~= body);
        assert(split_sign(t) == (false, body));
    }
    assert forall|k: int| 0 <= k < t.len() implies is_digit(#[trigger] t[k]) || t[k] == '.' || (k == 0
        && t[k] == '-') by {
        if v < 0 {
            if k > 0 {
                assert(t[k] == body[k - 1]);
            }
        }
    }
    assert(t.last() == body.last());
    if v >= 0 {
        assert(t[0] == body[0]);
    }
}

// ---------------------------------------------------------------------------------------------
// Executable helpers
// ---------------------------------------------------------------------------------------------

/// Appends one character to a string (`String::push`).
#[verifier::external_body]
pub(crate) fn push_char(s: &mut String, c: char)
    ensures
        final(s)@ == old(s)@.push(c),
{
    s.push(c);
}

/// The characters of a string slice, in order.
pub fn chars_of(s: &str) -> (v: Vec<char>)
    ensures
        v@ == s@,
{
    let mut v: Vec<char> = Vec::new();
    for c in it: s.chars()
        invariant
            v@ == it.seq().take(it.index() as int),
    {
        v.push(c);
    }
    v
}

/// A string holding exactly the given characters.
pub fn string_of(v: &[char]) -> (s: String)
    ensures
        s@ == v@,
{
    let mut s = String::new();
    let mut i: usize = 0;
    while i < v.len()
        invariant
            i <= v.len(),
            s@ == v@.take(i as int),
        decreases v.len() - i,
    {
        push_char(&mut s, v[i]);
        i = i + 1;
        assert(s@ =~= v@.take(i as int));
    }
    assert(v@.take(v.len() as int) =~= v@);
    s
}

/// Appends the characters of `t` to `s`.
pub fn push_str(s: &mut String, t: &str)
    ensures
        final(s)@ == old(s)@ + t@,
{
    let v = chars_of(t);
    let mut i: usize = 0;
    while i < v.len()
        invariant
            i <= v.len(),
            v@ == t@,
            s@ == old(s)@ + v@.take(i as int),
        decreases v.len() - i,
    {
        push_char(s, v[i]);
        i = i + 1;
        assert(s@ =~= old(s)@ + v@.take(i as int));
    }
    assert(v@.take(v.len() as int) =~= v@);
}

/// Appends the characters of `t` to `s`.
pub fn push_string(s: &mut String, t: &String)
    ensures
        final(s)@ == old(s)@ + t@,
{
    push_str(s, t.as_str());
}

/// The characters `v[lo..hi]`.
pub fn slice_of(v: &[char], lo: usize, hi: usize) -> (r: Vec<char>)
    requires
        lo <= hi <= v.len(),
    ensures
        r@ == v@.subrange(lo as int, hi as int),
{
    let mut r: Vec<char> = Vec::new();
    let mut i = lo;
    while i < hi
        invariant
            lo <= i <= hi <= v.len(),
            r@ == v@.subrange(lo as int, i as int),
        decreases hi - i,
    {
        r.push(v[i]);
        i = i + 1;
        assert(r@ =~= v@.subrange(lo as int, i as int));
    }
    r
}

pub fn is_ws_char(c: char) -> (b: bool)
    ensures
        b == is_ws(c),
{
    let u = c as u32;
    (0x09 <= u && u <= 0x0D) || u == 0x20 || u == 0x85 || u == 0xA0 || u == 0x1680 || (0x2000
        <= u && u <= 0x200A) || u == 0x2028 || u == 0x2029 || u == 0x202F || u == 0x205F || u
        == 0x3000
}

proof fn lemma_trim_start_skip(s: Seq<char>, k: int)
    requires
        0 <= k <= s.len(),
        forall|j: int| 0 <= j < k ==> is_ws(#[trigger] s[j]),
    ensures
        trim_start(s) == trim_start(s.skip(k)),
    decreases k,
{
    if k > 0 {
        assert(s.len() > 0 && is_ws(s[0]));
        assert forall|j: int| 0 <= j < k - 1 implies is_ws(#[trigger] s.drop_first()[j]) by {
            assert(s.drop_first()[j] == s[j + 1]);
        }
        lemma_trim_start_skip(s.drop_first(), k - 1);
        assert(s.drop_first().skip(k - 1) =~= s.skip(k));
    } else {
        assert(s.skip(0) =~= s);
    }
}

proof fn lemma_trim_end_take(s: Seq<char>, k: int)
    requires
        0 <= k <= s.len(),
        forall|j: int| k <= j < s.len() ==> is_ws(#[trigger] s[j]),
    ensures
        trim_end(s) == trim_end(s.take(k)),
    decreases s.len() - k,
{
    if k < s.len() {
        assert(is_ws(s.last()));
        assert forall|j: int| k <= j < s.drop_last().len() implies is_ws(
            #[trigger] s.drop_last()[j],
        ) by {
            assert(s.drop_last()[j] == s[j]);
        }
        lemma_trim_end_take(s.drop_last(), k);
        assert(s.drop_last().take(k) =~= s.take(k));
    } else {
        assert(s.take(k) =~= s);
    }
}

/// `str::trim` on characters.
pub fn trim_chars(v: &[char]) -> (r: Vec<char>)
    ensures
        r@ == trim(v@),
{
    let mut lo: usize = 0;
    while lo < v.len() && is_ws_char(v[lo])
        invariant
            lo <= v.len(),
            forall|j: int| 0 <= j < lo ==> is_ws(#[trigger] v@[j]),
        decreases v.len() - lo,
    {
        lo = lo + 1;
    }
    proof {
        lemma_trim_start_skip(v@, lo as int);
        let t = v@.skip(lo as int);
        if t.len() > 0 {
            assert(t[0] == v@[lo as int]);
        }
        assert(trim_start(t) == t);
    }
    let mut hi: usize = v.len();
    while hi > lo && is_ws_char(v[hi - 1])
        invariant
            lo <= hi <= v.len(),
            forall|j: int| hi <= j < v.len() ==> is_ws(#[trigger] v@[j]),
        decreases hi,
    {
        hi = hi - 1;
    }
    proof {
        let t = v@.skip(lo as int);
        assert forall|j: int| (hi - lo) <= j < t.len() implies is_ws(#[trigger] t[j]) by {
            assert(t[j] == v@[j + lo]);
        }
        lemma_trim_end_take(t, hi - lo);
        let u = t.take(hi - lo);
        assert(u =~= v@.subrange(lo as int, hi as int));
        if u.len() > 0 {
            assert(u.last() == v@[hi - 1]);
        }
        assert(trim_end(u) == u);
    }
    slice_of(v, lo, hi)
}

/// `str::trim` on a string slice.
pub fn trim_str(s: &str) -> (r: Vec<char>)
    ensures
        r@ == trim(s@),
{
    let v = chars_of(s);
    trim_chars(v.as_slice())
}

/// The first index of `c` in `v`.
pub fn find_char(v: &[char], c: char) -> (r: Option<usize>)
    ensures
        match r {
            Some(i) => first_index(v@, c) == Some(i as int) && i < v@.len() && v@[i as int] == c,
            None => first_index(v@, c) is None,
        },
{
    let mut i: usize = 0;
    while i < v.len()
        invariant
            i <= v.len(),
            forall|j: int| 0 <= j < i ==> v@[j] != c,
        decreases v.len() - i,
    {
        if v[i] == c {
            proof {
                let w = choose|k: int|
                    0 <= k < v@.len() && v@[k] == c && forall|j: int| 0 <= j < k ==> v@[j] != c;
                assert(0 <= i < v@.len() && v@[i as int] == c && forall|j: int|
                    0 <= j < i ==> v@[j] != c);
                if w < i {
                } else if w > i {
                }
                assert(w == i);
            }
            return Some(i);
        }
        i = i + 1;
    }
    None
}

/// `split_once` on a character.
pub fn split_once_chars(v: &[char], c: char) -> (r: Option<(Vec<char>, Vec<char>)>)
    ensures
        match r {
            Some((a, b)) => split_once(v@, c) == Some((a@, b@)),
            None => split_once(v@, c) is None,
        },
{
    match find_char(v, c) {
        Some(i) => {
            assert(i < v.len());
            let a = slice_of(v, 0, i);
            let b = slice_of(v, i + 1, v.len());
            assert(a@ =~= v@.take(i as int));
            assert(b@ =~= v@.skip(i + 1));
            Some((a, b))
        },
        None => None,
    }
}

/// Whether `p` is a prefix of `v`.
pub fn starts_with_chars(v: &[char], p: &[char]) -> (b: bool)
    ensures
        b == p@.is_prefix_of(v@),
{
    if p.len() > v.len() {
        return false;
    }
    let mut i: usize = 0;
    while i < p.len()
        invariant
            i <= p.len() <= v.len(),
            forall|j: int| 0 <= j < i ==> p@[j] == v@[j],
        decreases p.len() - i,
    {
        if p[i] != v[i] {
            return false;
        }
        i = i + 1;
    }
    assert(v@.take(p@.len() as int) =~= p@);
    true
}

/// Whether `p` is a prefix of `s`.
pub fn starts_with(s: &str, p: &str) -> (b: bool)
    ensures
        b == p@.is_prefix_of(s@),
{
    let v = chars_of(s);
    let w = chars_of(p);
    starts_with_chars(v.as_slice(), w.as_slice())
}

/// Character-wise equality.
pub fn chars_eq(a: &[char], b: &[char]) -> (r: bool)
    ensures
        r == (a@ == b@),
{
    if a.len() != b.len() {
        return false;
    }
    let mut i: usize = 0;
    while i < a.len()
        invariant
            i <= a.len() == b.len(),
            forall|j: int| 0 <= j < i ==> a@[j] == b@[j],
        decreases a.len() - i,
    {
        if a[i] != b[i] {
            return false;
        }
        i = i + 1;
    }
    assert(a@ =~= b@);
    true
}

/// Whether a string slice spells exactly the given characters.
pub fn str_eq(s: &str, t: &str) -> (r: bool)
    ensures
        r == (s@ == t@),
{
    let a = chars_of(s);
    let b = chars_of(t);
    chars_eq(a.as_slice(), b.as_slice())
}

/// `str::trim_end_matches` with a non-empty pattern.
pub fn trim_end_matches_chars(v: &[char], p: &[char]) -> (r: Vec<char>)
    ensures
        r@ == trim_end_matches(v@, p@),
{
    let mut cur: Vec<char> = slice_of(v, 0, v.len());
    assert(cur@ =~= v@);
    loop
        invariant
            trim_end_matches(cur@, p@) == trim_end_matches(v@, p@),
        decreases cur@.len(),
    {
        if p.len() == 0 || cur.len() < p.len() {
            return cur;
        }
        let start = cur.len() - p.len();
        let tail = slice_of(cur.as_slice(), start, cur.len());
        if !chars_eq(tail.as_slice(), p) {
            return cur;
        }
        cur = slice_of(cur.as_slice(), 0, start);
    }
}

proof fn lemma_parse_digits_bound(s: Seq<char>, k: int, bound: int)
    requires
        all_digits(s),
        0 <= k <= s.len(),
        digits_value(s.take(k)) > bound,
    ensures
        digits_value(s) > bound,
{
    lemma_digits_value_prefix(s, k);
}

/// The value of a run of digits, or `None` once it exceeds `bound`.
fn digits_upto(v: &[char], bound: u128) -> (r: Option<u128>)
    requires
        all_digits(v@),
        bound <= u64::MAX,
    ensures
        match r {
            Some(n) => n == digits_value(v@) && n <= bound,
            None => digits_value(v@) > bound,
        },
{
    let mut acc: u128 = 0;
    let mut i: usize = 0;
    while i < v.len()
        invariant
            i <= v.len(),
            all_digits(v@),
            bound <= u64::MAX,
            acc == digits_value(v@.take(i as int)),
            acc <= bound,
        decreases v.len() - i,
    {
        let c = v[i];
        assert(is_digit(v@[i as int]));
        let d = (c as u32 - '0' as u32) as u128;
        proof {
            assert(v@.take(i + 1) =~= v@.take(i as int).push(c));
            lemma_digits_value_push(v@.take(i as int), c);
        }
        let next = acc * 10 + d;
        if next > bound {
            proof {
                lemma_parse_digits_bound(v@, i + 1, bound as int);
            }
            return None;
        }
        acc = next;
        i = i + 1;
    }
    assert(v@.take(v.len() as int) =~= v@);
    Some(acc)
}

fn all_digits_chars(v: &[char]) -> (b: bool)
    ensures
        b == all_digits(v@),
{
    let mut i: usize = 0;
    while i < v.len()
        invariant
            i <= v.len(),
            forall|j: int| 0 <= j < i ==> is_digit(#[trigger] v@[j]),
        decreases v.len() - i,
    {
        if !(v[i] >= '0' && v[i] <= '9') {
            return false;
        }
        i = i + 1;
    }
    true
}

fn split_sign_chars(v: &[char]) -> (r: (bool, Vec<char>))
    ensures
        (r.0, r.1@) == split_sign(v@),
{
    if v.len() > 0 && v[0] == '-' {
        let b = slice_of(v, 1, v.len());
        assert(b@ =~= v@.drop_first());
        (true, b)
    } else if v.len() > 0 && v[0] == '+' {
        let b = slice_of(v, 1, v.len());
        assert(b@ =~= v@.drop_first());
        (false, b)
    } else {
        let b = slice_of(v, 0, v.len());
        assert(b@ =~= v@);
        (false, b)
    }
}

/// `i64::from_str` on characters.
pub fn parse_int_chars(v: &[char]) -> (r: Option<i64>)
    ensures
        match r {
            Some(n) => parse_int(v@) == Some(n as int),
            None => parse_int(v@) is None,
        },
{
    let (neg, body) = split_sign_chars(v);
    if body.len() == 0 || !all_digits_chars(body.as_slice()) {
        return None;
    }
    // i64::MAX + 1, the magnitude of i64::MIN
    let limit: u128 = 9223372036854775808;
    match digits_upto(body.as_slice(), limit) {
        None => None,
        Some(m) => {
            if neg {
                if m == limit {
                    Some(i64::MIN)
                } else {
                    Some(-(m as i64))
                }
            } else if m == limit {
                None
            } else {
                Some(m as i64)
            }
        },
    }
}

/// `i64::from_str` on a string slice.
pub fn parse_int_str(s: &str) -> (r: Option<i64>)
    ensures
        match r {
            Some(n) => parse_int(s@) == Some(n as int),
            None => parse_int(s@) is None,
        },
{
    let v = chars_of(s);
    parse_int_chars(v.as_slice())
}

fn pow10_exec(n: u32) -> (r: u64)
    requires
        n <= 6,
    ensures
        r == pow10(n as nat),
        1 <= r <= 1_000_000,
{
    let mut r: u64 = 1;
    let mut i: u32 = 0;
    while i < n
        invariant
            i <= n <= 6,
            r == pow10(i as nat),
        decreases n - i,
    {
        proof {
            lemma_pow10_mono(i as nat, 5);
            reveal_with_fuel(pow10, 7);
        }
        r = r * 10;
        i = i + 1;
    }
    proof {
        lemma_pow10_mono(n as nat, 6);
        lemma_pow10_pos(n as nat);
        reveal_with_fuel(pow10, 7);
    }
    r
}

/// The fraction digits scaled to `places`, and whether they round up.
fn frac_part(fp: &[char], places: u32) -> (r: (u64, u64))
    requires
        places <= 6,
        all_digits(fp@),
    ensures
        r.0 == frac_scaled(fp@, places as nat),
        r.1 == round_up(fp@, places as nat),
        r.0 < pow10(places as nat),
        r.0 <= 1_000_000,
        r.1 <= 1,
{
    proof {
        lemma_frac_below(fp@, places as nat);
        lemma_pow10_mono(places as nat, 6);
        reveal_with_fuel(pow10, 7);
    }
    let fl = fp.len();
    let p = places as usize;
    let frac: u64 = if fl >= p {
        let head = slice_of(fp, 0, p);
        assert(head@ =~= fp@.take(p as int));
        assert(all_digits(head@));
        proof {
            lemma_digits_below_pow10(head@);
        }
        match digits_upto(head.as_slice(), 1_000_000) {
            Some(f) => f as u64,
            None => 0,
        }
    } else {
        proof {
            lemma_digits_below_pow10(fp@);
            lemma_pow10_mono(fp@.len(), 6);
        }
        let f0: u64 = match digits_upto(fp, 1_000_000) {
            Some(f) => f as u64,
            None => 0,
        };
        let sc = pow10_exec((places - fl as u32) as u32);
        proof {
            lemma_pow10_split(fp@.len(), (places - fl) as nat);
            assert(f0 * sc <= pow10(places as nat)) by (nonlinear_arith)
                requires
                    f0 < pow10(fp@.len()),
                    sc == pow10((places - fl) as nat),
                    pow10(fp@.len()) * pow10((places - fl) as nat) == pow10(places as nat),
                    f0 >= 0,
                    sc >= 0,
            ;
        }
        f0 * sc
    };
    let up: u64 = if fl > p && (fp[p] as u32) >= ('5' as u32) {
        1
    } else {
        0
    };
    (frac, up)
}

/// A decimal number as an integer count of `10^-places`.
pub fn parse_decimal_chars(v: &[char], places: u32) -> (r: Option<i64>)
    requires
        places <= 6,
    ensures
        match r {
            Some(n) => parse_decimal(v@, places as nat) == Some(n as int),
            None => parse_decimal(v@, places as nat) is None,
        },
{
    let (neg, body) = split_sign_chars(v);
    let (ip, fp) = match split_once_chars(body.as_slice(), '.') {
        Some(parts) => parts,
        None => {
            let e: Vec<char> = Vec::new();
            assert(e@ =~= Seq::<char>::empty());
            (body, e)
        },
    };
    if !all_digits_chars(ip.as_slice()) || !all_digits_chars(fp.as_slice()) || (ip.len()
        == 0 && fp.len() == 0) {
        return None;
    }
    let scale = pow10_exec(places);
    let max: u64 = 9223372036854775807;
    let (frac, up) = frac_part(fp.as_slice(), places);
    let whole: u64 = match digits_upto(ip.as_slice(), max as u128) {
        Some(w) => w as u64,
        None => {
            proof {
                lemma_digits_value_nonneg(ip@);
                lemma_frac_nonneg(fp@, places as nat);
                assert(digits_value(ip@) * pow10(places as nat) >= digits_value(ip@))
                    by (nonlinear_arith)
                    requires
                        pow10(places as nat) >= 1,
                        digits_value(ip@) >= 0,
                ;
            }
            return None;
        },
    };
    // whole * scale + frac + up <= max, checked without overflow
    let avail = max - frac - up;
    let room = avail / scale;
    if whole > room {
        proof {
            assert(whole * scale + frac + up > max) by (nonlinear_arith)
                requires
                    whole > room,
                    room == avail / scale,
                    avail == max - frac - up,
                    scale >= 1,
                    avail >= 0,
            ;
        }
        return None;
    }
    proof {
        assert(whole * scale <= max - frac - up) by (nonlinear_arith)
            requires
                whole <= room,
                room == avail / scale,
                avail == max - frac - up,
                scale >= 1,
                avail >= 0,
        ;
    }
    let mag = whole * scale + frac + up;
    if neg {
        Some(-(mag as i64))
    } else {
        Some(mag as i64)
    }
}

proof fn lemma_frac_nonneg(f: Seq<char>, places: nat)
    requires
        all_digits(f),
    ensures
        frac_scaled(f, places) >= 0,
        round_up(f, places) >= 0,
{
    lemma_digits_value_nonneg(f);
    lemma_pow10_pos((places - f.len()) as nat);
    if f.len() >= places {
        assert(all_digits(f.take(places as int)));
        lemma_digits_value_nonneg(f.take(places as int));
    } else {
        assert(digits_value(f) * pow10((places - f.len()) as nat) >= 0) by (nonlinear_arith)
            requires
                digits_value(f) >= 0,
                pow10((places - f.len()) as nat) >= 1,
        ;
    }
}

proof fn lemma_digits_below_pow10(s: Seq<char>)
    requires
        all_digits(s),
    ensures
        0 <= digits_value(s) < pow10(s.len()),
    decreases s.len(),
{
    if s.len() > 0 {
        lemma_digits_below_pow10(s.drop_last());
        assert(pow10(s.len()) == 10 * pow10(s.drop_last().len()));
        assert(is_digit(s[s.len() - 1]));
    }
}

proof fn lemma_pow10_mono(a: nat, b: nat)
    requires
        a <= b,
    ensures
        pow10(a) <= pow10(b),
    decreases b,
{
    if a < b {
        lemma_pow10_mono(a, (b - 1) as nat);
        lemma_pow10_pos((b - 1) as nat);
    }
}

proof fn lemma_pow10_split(a: nat, b: nat)
    ensures
        pow10(a) * pow10(b) == pow10(a + b),
    decreases a,
{
    if a > 0 {
        lemma_pow10_split((a - 1) as nat, b);
        assert(pow10(a) * pow10(b) == 10 * (pow10((a - 1) as nat) * pow10(b))) by (nonlinear_arith)
            requires
                pow10(a) == 10 * pow10((a - 1) as nat),
        ;
    }
}

proof fn lemma_frac_below(f: Seq<char>, places: nat)
    requires
        all_digits(f),
    ensures
        0 <= frac_scaled(f, places) < pow10(places),
        0 <= round_up(f, places) <= 1,
{
    if f.len() >= places {
        assert(all_digits(f.take(places as int)));
        lemma_digits_below_pow10(f.take(places as int));
    } else {
        lemma_digits_below_pow10(f);
        lemma_pow10_split(f.len(), (places - f.len()) as nat);
        lemma_pow10_pos((places - f.len()) as nat);
        assert(digits_value(f) * pow10((places - f.len()) as nat) < pow10(places))
            by (nonlinear_arith)
            requires
                0 <= digits_value(f) < pow10(f.len()),
                pow10((places - f.len()) as nat) >= 1,
                pow10(f.len()) * pow10((places - f.len()) as nat) == pow10(places),
        ;
        assert(digits_value(f) * pow10((places - f.len()) as nat) >= 0) by (nonlinear_arith)
            requires
                0 <= digits_value(f),
                pow10((places - f.len()) as nat) >= 1,
        ;
    }
}

/// A decimal number in a string slice as an integer count of `10^-places`.
pub fn parse_decimal_str(s: &str, places: u32) -> (r: Option<i64>)
    requires
        places <= 6,
    ensures
        match r {
            Some(n) => parse_decimal(s@, places as nat) == Some(n as int),
            None => parse_decimal(s@, places as nat) is None,
        },
{
    let v = chars_of(s);
    parse_decimal_chars(v.as_slice(), places)
}

// ---------------------------------------------------------------------------------------------
// Formatting
// ---------------------------------------------------------------------------------------------

fn digit_of(d: u64) -> (c: char)
    requires
        d < 10,
    ensures
        c == digit_char(d as int),
{
    let c: char = if d == 0 {
        '0'
    } else if d == 1 {
        '1'
    } else if d == 2 {
        '2'
    } else if d == 3 {
        '3'
    } else if d == 4 {
        '4'
    } else if d == 5 {
        '5'
    } else if d == 6 {
        '6'
    } else if d == 7 {
        '7'
    } else if d == 8 {
        '8'
    } else {
        '9'
    };
    c
}

/// Appends the decimal digits of `n`.
pub fn push_nat(s: &mut String, n: u64)
    ensures
        final(s)@ == old(s)@ + nat_text(n as nat),
    decreases n,
{
    if n >= 10 {
        push_nat(s, n / 10);
        push_char(s, digit_of(n % 10));
        assert(final(s)@ =~= old(s)@ + nat_text(n as nat));
    } else {
        push_char(s, digit_of(n));
        assert(final(s)@ =~= old(s)@ + nat_text(n as nat));
    }
}

/// Appends an integer the way `Display` writes it.
pub fn push_int(s: &mut String, i: i64)
    ensures
        final(s)@ == old(s)@ + int_text(i as int),
{
    if i < 0 {
        push_char(s, '-');
        let m: u64 = if i == i64::MIN {
            9223372036854775808
        } else {
            (-i) as u64
        };
        push_nat(s, m);
        assert(final(s)@ =~= old(s)@ + int_text(i as int));
    } else {
        push_nat(s, i as u64);
    }
}

fn push_padded(s: &mut String, f: u64, k: u32)
    ensures
        final(s)@ == old(s)@ + padded_digits(f as nat, k as nat),
    decreases k,
{
    if k > 0 {
        push_padded(s, f / 10, k - 1);
        push_char(s, digit_of(f % 10));
        assert(final(s)@ =~= old(s)@ + padded_digits(f as nat, k as nat));
    } else {
        assert(final(s)@ =~= old(s)@ + padded_digits(f as nat, k as nat));
    }
}

/// Appends the `places` fraction digits of `frac`, without their trailing zeros.
fn push_fraction(s: &mut String, frac: u64, places: u32)
    ensures
        final(s)@ == old(s)@ + strip_trailing_zeros(padded_digits(frac as nat, places as nat)),
{
    let mut digits = String::new();
    push_padded(&mut digits, frac, places);
    let dv = chars_of(digits.as_str());
    assert(dv@ =~= padded_digits(frac as nat, places as nat));
    let mut end = dv.len();
    assert(dv@.take(end as int) =~= dv@);
    while end > 0 && dv[end - 1] == '0'
        invariant
            end <= dv@.len(),
            strip_trailing_zeros(dv@) == strip_trailing_zeros(dv@.take(end as int)),
        decreases end,
    {
        proof {
            assert(dv@.take(end as int).drop_last() =~= dv@.take(end - 1));
        }
        end = end - 1;
    }
    proof {
        let t = dv@.take(end as int);
        if t.len() > 0 {
            assert(t.last() == dv@[end - 1]);
        }
        assert(strip_trailing_zeros(t) == t);
    }
    let kept = slice_of(dv.as_slice(), 0, end);
    assert(kept@ =~= dv@.take(end as int));
    let ks = string_of(kept.as_slice());
    push_string(s, &ks);
}

/// Appends a count of `10^-places` as the shortest decimal that denotes it.
pub fn push_fixed(s: &mut String, v: i64, places: u32)
    requires
        places <= 6,
    ensures
        final(s)@ == old(s)@ + fixed_text(v as int, places as nat),
{
    let scale = pow10_exec(places);
    let m: u64 = if v == i64::MIN {
        9223372036854775808
    } else if v < 0 {
        (-v) as u64
    } else {
        v as u64
    };
    assert(m as int == (if v < 0 { -(v as int) } else { v as int }));
    let whole = m / scale;
    let frac = m % scale;
    let ghost start = s@;
    if v < 0 {
        push_char(s, '-');
    }
    let ghost signed = s@;
    push_nat(s, whole);
    if frac != 0 {
        push_char(s, '.');
        push_fraction(s, frac, places);
    }
    assert(final(s)@ =~= start + fixed_text(v as int, places as nat));
}

// ---------------------------------------------------------------------------------------------
// Ordering
// ---------------------------------------------------------------------------------------------

/// `a < b` in `String`'s order.
pub fn chars_lt(a: &[char], b: &[char]) -> (r: bool)
    ensures
        r == seq_lt(a@, b@),
{
    let mut i: usize = 0;
    assert(a@.skip(0) =~= a@);
    assert(b@.skip(0) =~= b@);
    while i < a.len() && i < b.len() && a[i] == b[i]
        invariant
            i <= a.len(),
            i <= b.len(),
            forall|j: int| 0 <= j < i ==> a@[j] == b@[j],
            seq_lt(a@, b@) == seq_lt(a@.skip(i as int), b@.skip(i as int)),
        decreases a.len() - i,
    {
        proof {
            assert(a@.skip(i as int).drop_first() =~= a@.skip(i + 1));
            assert(b@.skip(i as int).drop_first() =~= b@.skip(i + 1));
        }
        i = i + 1;
    }
    proof {
        if i < a.len() && i < b.len() {
            assert(a@.skip(i as int)[0] == a@[i as int]);
            assert(b@.skip(i as int)[0] == b@[i as int]);
        }
    }
    if i == a.len() {
        i < b.len()
    } else if i == b.len() {
        false
    } else {
        a[i] < b[i]
    }
}

/// `a < b` in `String`'s order.
pub fn str_lt(a: &str, b: &str) -> (r: bool)
    ensures
        r == seq_lt(a@, b@),
{
    let x = chars_of(a);
    let y = chars_of(b);
    chars_lt(x.as_slice(), y.as_slice())
}

} // verus!
