//! The night light: a colour temperature, set as a percentage of warmth.
use vstd::prelude::*;

use crate::error::Error;
use crate::percent::{clamp, Percent};
use crate::text::{chars_of, int_text, is_digit, is_ws, lemma_int_text, parse_int,
    parse_int_chars, push_char, push_int, push_str, trim, trim_chars, trim_end, trim_start};

verus! {

pub const MIN_KELVIN: i64 = 2500;

pub const MAX_KELVIN: i64 = 6500;

pub enum NightlightState {
    Off,
    On(Percent),
}

pub open spec fn nightlight_text(s: NightlightState) -> Seq<char> {
    match s {
        NightlightState::Off => "off"@,
        NightlightState::On(p) => int_text(p.value()),
    }
}

impl NightlightState {
    pub fn to_string(&self) -> (s: String)
        ensures
            s@ == nightlight_text(*self),
    {
        match self {
            NightlightState::Off => {
                let mut s = String::new();
                push_str(&mut s, "off");
                s
            },
            NightlightState::On(p) => p.to_string(),
        }
    }
}

pub trait NightlightCtl {
    fn get(&self) -> NightlightState;

    fn set(&self, percent: Percent) -> Result<(), Error>;

    fn unset(&self) -> Result<(), Error>;
}

/// `a / b` truncated toward zero, as integer division in Rust truncates.
pub open spec fn trunc_div(a: int, b: int) -> int {
    if a >= 0 {
        a / b
    } else {
        -((-a) / b)
    }
}

/// 0% is the neutral 6500K, 100% the warmest 2500K.
pub open spec fn kelvin_of(p: int) -> int {
    MAX_KELVIN - p * (MAX_KELVIN - MIN_KELVIN) / 100
}

pub open spec fn percent_of(kelvin: int) -> int {
    clamp(trunc_div((MAX_KELVIN - kelvin) * 100, MAX_KELVIN - MIN_KELVIN), 0, 100)
}

/// Every warmth maps to a temperature that maps back to it.
pub proof fn lemma_percent_of_kelvin(p: int)
    requires
        0 <= p <= 100,
    ensures
        MIN_KELVIN <= kelvin_of(p) <= MAX_KELVIN,
        percent_of(kelvin_of(p)) == p,
{
    assert(p * (MAX_KELVIN - MIN_KELVIN) == (40 * p) * 100);
    vstd::arithmetic::div_mod::lemma_fundamental_div_mod_converse_div(p * 4000, 100, 40 * p, 0);
    assert(p * (MAX_KELVIN - MIN_KELVIN) / 100 == 40 * p);
    assert((MAX_KELVIN - kelvin_of(p)) * 100 == p * 4000);
    vstd::arithmetic::div_mod::lemma_fundamental_div_mod_converse_div(p * 4000, 4000, p, 0);
    assert(trunc_div(p * 4000, 4000) == p);
}

/// What setting the night light writes to its state file, reading it back gives: the warmth it
/// was set to.
pub proof fn lemma_nightlight_round_trip(p: int)
    requires
        0 <= p <= 100,
    ensures
        state_from_text(Some(int_text(kelvin_of(p)) + seq!['\n'])) == Some(p),
{
    let k = kelvin_of(p);
    lemma_percent_of_kelvin(p);
    lemma_int_text(k);
    let w = int_text(k);
    let t = w + seq!['\n'];
    assert(is_digit(w[0]));
    assert(t[0] == w[0]);
    assert(trim_start(t) == t);
    assert(t.last() == '\n');
    assert(t.drop_last() =~= w);
    assert(is_ws('\n'));
    assert(trim_end(t) == trim_end(w));
    assert(!is_ws(w.last()));
    assert(trim_end(w) == w);
    assert(trim(t) == w);
}

pub fn kelvin_from_percent(percent: Percent) -> (k: i64)
    requires
        percent.wf(),
    ensures
        k == kelvin_of(percent.value()),
        MIN_KELVIN <= k <= MAX_KELVIN,
{
    let p = percent.get();
    proof {
        assert(0 <= p * 4000 <= 400000) by (nonlinear_arith)
            requires
                0 <= p <= 100,
        ;
    }
    MAX_KELVIN - p * (MAX_KELVIN - MIN_KELVIN) / 100
}

/// The warmth a temperature stands for, clamped into range.
pub fn percent_from_kelvin(kelvin: i64) -> (p: Percent)
    ensures
        p.wf(),
        p.value() == percent_of(kelvin as int),
{
    let n: i128 = (MAX_KELVIN as i128 - kelvin as i128) * 100;
    let d: i128 = (MAX_KELVIN - MIN_KELVIN) as i128;
    let q: i128 = if n >= 0 {
        n / d
    } else {
        -((-n) / d)
    };
    let c: i64 = if q < 0 {
        0
    } else if q > 100 {
        100
    } else {
        q as i64
    };
    Percent::new(c)
}

/// The night light the state file describes: on at the warmth its temperature stands for, or off
/// when there is no readable temperature.
pub open spec fn state_from_text(text: Option<Seq<char>>) -> Option<int> {
    match text {
        Some(t) => match parse_int(trim(t)) {
            Some(k) => Some(percent_of(k)),
            None => None,
        },
        None => None,
    }
}

pub fn nightlight_state(text: Option<&str>) -> (s: NightlightState)
    ensures
        match s {
            NightlightState::On(p) => p.wf() && state_from_text(
                match text {
                    Some(t) => Some(t@),
                    None => None,
                },
            ) == Some(p.value()),
            NightlightState::Off => state_from_text(
                match text {
                    Some(t) => Some(t@),
                    None => None,
                },
            ) is None,
        },
{
    match text {
        Some(t) => {
            let v = chars_of(t);
            let tt = trim_chars(v.as_slice());
            match parse_int_chars(tt.as_slice()) {
                Some(k) => NightlightState::On(percent_from_kelvin(k)),
                None => NightlightState::Off,
            }
        },
        None => NightlightState::Off,
    }
}

/// What the state file holds for a temperature.
pub fn state_file_text(kelvin: i64) -> (s: String)
    ensures
        s@ == int_text(kelvin as int) + seq!['\n'],
{
    let mut s = String::new();
    push_int(&mut s, kelvin);
    push_char(&mut s, '\n');
    assert(s@ =~= int_text(kelvin as int) + seq!['\n']);
    s
}

} // verus!
