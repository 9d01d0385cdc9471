//! Screen sizes and display modes, as text and as numbers.
//!
//! A refresh rate is held as an integer count of millihertz: rates arrive at several precisions
//! (`60.00Hz` from a mode list, `60.003` from a live monitor) and are rounded to thousandths, so
//! equality stays exact.
use vstd::prelude::*;

use crate::text::{chars_of, fixed_text, int_text, is_digit, lemma_fixed_text, lemma_int_text,
    lemma_split_once_at, lemma_trim_plain, parse_decimal, parse_decimal_chars, parse_int,
    parse_int_chars, push_char, push_fixed, push_int, split_once, split_once_chars, trim,
    trim_chars, trim_end_matches, trim_end_matches_chars};

verus! {

/// Refresh rates are kept to this many decimals.
pub const REFRESH_PLACES: u32 = 3;

#[derive(Clone, Copy, Debug, PartialEq, Eq, Structural)]
pub struct Size {
    pub width: i64,
    pub height: i64,
}

/// `WIDTHxHEIGHT`, each side an integer with white space allowed around it.
pub open spec fn parse_size(s: Seq<char>) -> Option<Size> {
    match split_once(trim(s), 'x') {
        Some((w, h)) => match (parse_int(trim(w)), parse_int(trim(h))) {
            (Some(width), Some(height)) => Some(Size { width: width as i64, height: height as i64 }),
            _ => None,
        },
        None => None,
    }
}

pub open spec fn size_text(width: int, height: int) -> Seq<char> {
    int_text(width) + seq!['x'] + int_text(height)
}

impl Size {
    pub fn new(width: i64, height: i64) -> (s: Self)
        ensures
            s.width == width,
            s.height == height,
    {
        Size { width, height }
    }

    pub fn parse(s: &str) -> (r: Option<Self>)
        ensures
            r == parse_size(s@),
    {
        let v = chars_of(s);
        parse_size_chars(v.as_slice())
    }

    /// `WIDTHxHEIGHT`.
    pub fn to_string(&self) -> (s: String)
        ensures
            s@ == size_text(self.width as int, self.height as int),
    {
        let mut s = String::new();
        push_int(&mut s, self.width);
        push_char(&mut s, 'x');
        push_int(&mut s, self.height);
        assert(s@ =~= size_text(self.width as int, self.height as int));
        s
    }
}

pub fn parse_size_chars(v: &[char]) -> (r: Option<Size>)
    ensures
        r == parse_size(v@),
{
    let t = trim_chars(v);
    match split_once_chars(t.as_slice(), 'x') {
        Some((w, h)) => {
            let wt = trim_chars(w.as_slice());
            let ht = trim_chars(h.as_slice());
            match (parse_int_chars(wt.as_slice()), parse_int_chars(ht.as_slice())) {
                (Some(width), Some(height)) => Some(Size { width, height }),
                _ => None,
            }
        },
        None => None,
    }
}

#[derive(Clone, Copy, Debug, PartialEq, Eq, Structural)]
pub struct Resolution {
    pub width: i64,
    pub height: i64,
    /// Millihertz.
    pub refresh: i64,
}

/// `WIDTHxHEIGHT@RATE`, the rate optionally followed by `Hz`, white space allowed around every
/// part; the rate is rounded to thousandths.
pub open spec fn parse_resolution(s: Seq<char>) -> Option<Resolution> {
    match split_once(trim(s), '@') {
        Some((size, rate)) => {
            let rate = trim(trim_end_matches(trim(rate), seq!['H', 'z']));
            match split_once(trim(size), 'x') {
                Some((w, h)) => match (
                    parse_int(trim(w)),
                    parse_int(trim(h)),
                    parse_decimal(rate, REFRESH_PLACES as nat),
                ) {
                    (Some(width), Some(height), Some(refresh)) => Some(
                        Resolution {
                            width: width as i64,
                            height: height as i64,
                            refresh: refresh as i64,
                        },
                    ),
                    _ => None,
                },
                None => None,
            }
        },
        None => None,
    }
}

/// `WIDTHxHEIGHT@RATE`, the rate in its shortest decimal form.
pub open spec fn resolution_text(r: Resolution) -> Seq<char> {
    size_text(r.width as int, r.height as int) + seq!['@'] + fixed_text(
        r.refresh as int,
        REFRESH_PLACES as nat,
    )
}

/// `WIDTHxHEIGHT@RATE` with the rate rounded down to whole hertz.
pub open spec fn rounded_text(r: Resolution) -> Seq<char> {
    size_text(r.width as int, r.height as int) + seq!['@'] + int_text(r.refresh as int / 1000)
}

impl Resolution {
    /// `refresh` is in millihertz.
    pub fn new(width: i64, height: i64, refresh: i64) -> (r: Self)
        ensures
            r.width == width,
            r.height == height,
            r.refresh == refresh,
    {
        Resolution { width, height, refresh }
    }

    pub fn size(&self) -> (s: Size)
        ensures
            s.width == self.width,
            s.height == self.height,
    {
        Size { width: self.width, height: self.height }
    }

    /// Whole-number refresh, for lists a person reads rather than a rule the compositor parses.
    pub fn rounded(&self) -> (s: String)
        ensures
            s@ == rounded_text(*self),
    {
        let mut s = String::new();
        push_int(&mut s, self.width);
        push_char(&mut s, 'x');
        push_int(&mut s, self.height);
        push_char(&mut s, '@');
        // floor division, also for a negative rate
        let q = self.refresh / 1000;
        let r = self.refresh % 1000;
        let hz = if r < 0 { q - 1 } else { q };
        assert(hz as int == self.refresh as int / 1000);
        push_int(&mut s, hz);
        assert(s@ =~= rounded_text(*self));
        s
    }

    pub fn to_string(&self) -> (s: String)
        ensures
            s@ == resolution_text(*self),
    {
        let mut s = String::new();
        push_int(&mut s, self.width);
        push_char(&mut s, 'x');
        push_int(&mut s, self.height);
        push_char(&mut s, '@');
        push_fixed(&mut s, self.refresh, REFRESH_PLACES);
        assert(s@ =~= resolution_text(*self));
        s
    }

    pub fn parse(s: &str) -> (r: Option<Self>)
        ensures
            r == parse_resolution(s@),
    {
        let v = chars_of(s);
        parse_resolution_chars(v.as_slice())
    }
}

pub fn parse_resolution_chars(v: &[char]) -> (r: Option<Resolution>)
    ensures
        r == parse_resolution(v@),
{
    let t = trim_chars(v);
    let (size, rate) = match split_once_chars(t.as_slice(), '@') {
        Some(parts) => parts,
        None => return None,
    };
    let rt = trim_chars(rate.as_slice());
    let hz = ['H', 'z'];
    assert(hz@ =~= seq!['H', 'z']);
    let rt = trim_end_matches_chars(rt.as_slice(), hz.as_slice());
    let rt = trim_chars(rt.as_slice());
    let st = trim_chars(size.as_slice());
    let (w, h) = match split_once_chars(st.as_slice(), 'x') {
        Some(parts) => parts,
        None => return None,
    };
    let wt = trim_chars(w.as_slice());
    let ht = trim_chars(h.as_slice());
    match (
        parse_int_chars(wt.as_slice()),
        parse_int_chars(ht.as_slice()),
        parse_decimal_chars(rt.as_slice(), REFRESH_PLACES),
    ) {
        (Some(width), Some(height), Some(refresh)) => Some(Resolution { width, height, refresh }),
        _ => None,
    }
}

/// What `WIDTHxHEIGHT` is made of, as the parsers take it apart.
#[verifier::spinoff_prover]
pub proof fn lemma_size_text(width: i64, height: i64)
    ensures
        ({
            let t = size_text(width as int, height as int);
            let w = int_text(width as int);
            let h = int_text(height as int);
            &&& t.len() > 0
            &&& is_digit(t[0]) || t[0] == '-'
            &&& is_digit(t.last())
            &&& forall|k: int| 0 <= k < t.len() ==> is_digit(#[trigger] t[k]) || t[k] == '-' || t[k] == 'x'
            &&& trim(t) == t
            &&& split_once(t, 'x') == Some((w, h))
            &&& trim(w) == w && trim(h) == h
            &&& parse_int(w) == Some(width as int) && parse_int(h) == Some(height as int)
        }),
{
    let w = int_text(width as int);
    let h = int_text(height as int);
    let t = size_text(width as int, height as int);
    lemma_int_text(width as int);
    lemma_int_text(height as int);
    assert(t == w + seq!['x'] + h);
    assert(t[0] == w[0]);
    assert(t.last() == h.last());
    assert(is_digit(w[0]) || w[0] == '-');
    assert(is_digit(h[0]) || h[0] == '-');
    lemma_trim_plain(t);
    assert forall|k: int| 0 <= k < w.len() implies w[k] != 'x' by {
        assert(is_digit(w[k]) || w[k] == '-');
    }
    lemma_split_once_at(w, 'x', h);
    lemma_trim_plain(w);
    lemma_trim_plain(h);
    assert forall|k: int| 0 <= k < t.len() implies is_digit(#[trigger] t[k]) || t[k] == '-' || t[k] == 'x' by {
        if k < w.len() {
            assert(t[k] == w[k]);
        } else if k > w.len() {
            assert(t[k] == h[k - w.len() - 1]);
        }
    }
}

/// What `Size::to_string` writes, `Size::parse` reads back as the same size.
pub proof fn lemma_size_round_trip(s: Size)
    ensures
        parse_size(size_text(s.width as int, s.height as int)) == Some(s),
{
    lemma_size_text(s.width, s.height);
}

/// A refresh rate as written, taken back out of its text.
proof fn lemma_rate_text(v: i64)
    requires
        v > i64::MIN,
    ensures
        ({
            let rt = fixed_text(v as int, REFRESH_PLACES as nat);
            &&& trim(trim_end_matches(trim(rt), seq!['H', 'z'])) == rt
            &&& parse_decimal(rt, REFRESH_PLACES as nat) == Some(v as int)
            &&& rt.len() > 0
            &&& is_digit(rt.last())
        }),
{
    let rt = fixed_text(v as int, REFRESH_PLACES as nat);
    lemma_fixed_text(v as int, REFRESH_PLACES as nat);
    assert(is_digit(rt[0]) || rt[0] == '-');
    lemma_trim_plain(rt);
    assert(trim_end_matches(rt, seq!['H', 'z']) == rt) by {
        if rt.len() >= 2 {
            let tail = rt.subrange(rt.len() - 2, rt.len() as int);
            assert(tail[1] == rt.last());
            assert(tail != seq!['H', 'z']) by {
                assert(seq!['H', 'z'][1] == 'z');
            }
        }
    }
}

/// A mode as written, split at its `@`.
#[verifier::spinoff_prover]
#[verifier::rlimit(40)]
proof fn lemma_resolution_text(r: Resolution)
    requires
        r.refresh > i64::MIN,
    ensures
        split_once(trim(resolution_text(r)), '@') == Some(
            (size_text(r.width as int, r.height as int), fixed_text(r.refresh as int, REFRESH_PLACES as nat)),
        ),
{
    let st = size_text(r.width as int, r.height as int);
    let rt = fixed_text(r.refresh as int, REFRESH_PLACES as nat);
    let t = resolution_text(r);
    lemma_size_text(r.width, r.height);
    lemma_rate_text(r.refresh);
    assert(t == st + seq!['@'] + rt);
    assert(t[0] == st[0]);
    assert(t.last() == rt.last());
    lemma_trim_plain(t);
    assert forall|k: int| 0 <= k < st.len() implies st[k] != '@' by {
        assert(is_digit(st[k]) || st[k] == '-' || st[k] == 'x');
    }
    lemma_split_once_at(st, '@', rt);
}

/// What `Resolution::to_string` writes, `Resolution::parse` reads back as the same mode, refresh
/// rate and all. A rate of `i64::MIN` millihertz, whose magnitude no `i64` holds, is left out.
#[verifier::spinoff_prover]
pub proof fn lemma_resolution_round_trip(r: Resolution)
    requires
        r.refresh > i64::MIN,
    ensures
        parse_resolution(resolution_text(r)) == Some(r),
{
    lemma_resolution_text(r);
    lemma_rate_text(r.refresh);
    lemma_size_text(r.width, r.height);
}

} // verus!
