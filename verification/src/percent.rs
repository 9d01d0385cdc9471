//! A percentage that is clamped into `0..=100` on the way in.
use vstd::prelude::*;

use crate::text::{chars_of, int_text, is_digit, lemma_int_text, lemma_trim_plain, parse_int,
    parse_int_chars, push_int, trim, trim_chars, trim_end_matches, trim_end_matches_chars};

verus! {

/// `value` clamped into `lo..=hi`.
pub open spec fn clamp(value: int, lo: int, hi: int) -> int {
    if value < lo {
        lo
    } else if value > hi {
        hi
    } else {
        value
    }
}

/// Clamped on the way in, so nothing downstream has to ask whether a reading is in range.
#[derive(Clone, Copy, Debug, PartialEq, Eq, PartialOrd, Ord, Structural)]
pub struct Percent(pub(crate) u8);

/// What `Percent`'s text parser accepts: an integer, surrounded by white space, optionally
/// followed by percent signs.
pub open spec fn parse_percent(s: Seq<char>) -> Option<int> {
    match parse_int(trim_end_matches(trim(s), seq!['%'])) {
        Some(v) => Some(clamp(v, 0, 100)),
        None => None,
    }
}

impl Percent {
    pub closed spec fn value(self) -> int {
        self.0 as int
    }

    pub open spec fn wf(self) -> bool {
        0 <= self.value() <= 100
    }

    pub fn new(value: i64) -> (p: Self)
        ensures
            p.wf(),
            p.value() == clamp(value as int, 0, 100),
    {
        if value < 0 {
            Percent(0)
        } else if value > 100 {
            Percent(100)
        } else {
            Percent(value as u8)
        }
    }

    pub fn get(self) -> (v: i64)
        ensures
            v == self.value(),
    {
        self.0 as i64
    }

    /// Moves by `delta`, landing inside the range whatever the delta.
    pub fn offset(self, delta: i64) -> (p: Self)
        requires
            self.wf(),
        ensures
            p.wf(),
            p.value() == clamp(self.value() + delta, 0, 100),
    {
        let sum: i128 = self.0 as i128 + delta as i128;
        // `saturating_add` followed by the clamp lands where the exact sum clamps.
        let saturated: i64 = if sum > i64::MAX as i128 {
            i64::MAX
        } else if sum < i64::MIN as i128 {
            i64::MIN
        } else {
            sum as i64
        };
        Self::new(saturated)
    }

    /// Reads `60`, `60%` or ` 60 `; values outside the range are clamped into it.
    pub fn parse(s: &str) -> (r: Option<Self>)
        ensures
            match r {
                Some(p) => p.wf() && parse_percent(s@) == Some(p.value()),
                None => parse_percent(s@) is None,
            },
    {
        let v = chars_of(s);
        let t = trim_chars(v.as_slice());
        let pct = ['%'];
        let body = trim_end_matches_chars(t.as_slice(), pct.as_slice());
        assert(pct@ =~= seq!['%']);
        match parse_int_chars(body.as_slice()) {
            Some(n) => Some(Self::new(n)),
            None => None,
        }
    }

    /// The number, without a percent sign.
    pub fn to_string(&self) -> (s: String)
        ensures
            s@ == int_text(self.value()),
    {
        let mut s = String::new();
        push_int(&mut s, self.0 as i64);
        assert(s@ =~= int_text(self.value()));
        s
    }
}

/// A percentage as written reads back as the same percentage.
pub proof fn lemma_percent_round_trip(p: Percent)
    requires
        p.wf(),
    ensures
        parse_percent(int_text(p.value())) == Some(p.value()),
{
    let t = int_text(p.value());
    lemma_int_text(p.value());
    assert(is_digit(t[0]));
    lemma_trim_plain(t);
    assert(trim_end_matches(t, seq!['%']) == t) by {
        let tail = t.subrange(t.len() - 1, t.len() as int);
        assert(tail[0] == t.last());
        assert(tail != seq!['%']) by {
            assert(seq!['%'][0] == '%');
        }
    }
}

} // verus!
