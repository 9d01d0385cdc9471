//! The display layout: how each screen, keyed by its description, is switched and placed.
//!
//! A scale is held as an integer count of ten-thousandths: a compositor reports scales at several
//! precisions, and they are rounded to four decimals so that equality stays exact.
use vstd::prelude::*;

use crate::error::UserError;
use crate::resolution::{lemma_resolution_round_trip, lemma_size_text, parse_resolution,
    resolution_text, size_text, Resolution, Size};
use crate::text::{chars_eq, chars_of, fixed_text, int_text, is_digit, lemma_fixed_text,
    lemma_seq_lt_asymmetric, lemma_seq_lt_irreflexive, lemma_seq_lt_total,
    lemma_seq_lt_transitive, parse_decimal, parse_decimal_str, parse_int, parse_int_chars,
    push_char, push_fixed, push_int, push_str, seq_lt, split_once, split_once_chars, str_eq,
    str_lt, string_of, trim, trim_chars};

verus! {

/// Scales are kept to this many decimals.
pub const SCALE_PLACES: u32 = 4;

/// One, in ten-thousandths.
pub const UNIT_SCALE: i64 = 10000;

#[derive(Clone, Copy, Debug, PartialEq, Eq, Structural)]
pub enum Direction {
    Left,
    Right,
    Above,
    Below,
}

#[derive(Clone, Copy, Debug, PartialEq, Eq, Structural)]
pub enum Side {
    LeftOf,
    RightOf,
    Above,
    Below,
}

#[derive(Clone, Copy, Debug, PartialEq, Eq, Structural)]
pub enum Axis {
    Horizontal,
    Vertical,
}

pub open spec fn side_axis(side: Side) -> Axis {
    match side {
        Side::LeftOf | Side::RightOf => Axis::Horizontal,
        Side::Above | Side::Below => Axis::Vertical,
    }
}

pub open spec fn side_before(side: Side) -> bool {
    side == Side::LeftOf || side == Side::Above
}

pub open spec fn side_text(side: Side) -> Seq<char> {
    match side {
        Side::LeftOf => "left-of"@,
        Side::RightOf => "right-of"@,
        Side::Above => "above"@,
        Side::Below => "below"@,
    }
}

impl Side {
    pub fn axis(self) -> (a: Axis)
        ensures
            a == side_axis(self),
    {
        match self {
            Side::LeftOf | Side::RightOf => Axis::Horizontal,
            Side::Above | Side::Below => Axis::Vertical,
        }
    }

    /// Whether the moving screen lands before the reference along the axis.
    pub fn before_reference(self) -> (b: bool)
        ensures
            b == side_before(self),
    {
        matches!(self, Side::LeftOf | Side::Above)
    }

    pub fn to_string(&self) -> (s: String)
        ensures
            s@ == side_text(*self),
    {
        let mut s = String::new();
        match self {
            Side::LeftOf => push_str(&mut s, "left-of"),
            Side::RightOf => push_str(&mut s, "right-of"),
            Side::Above => push_str(&mut s, "above"),
            Side::Below => push_str(&mut s, "below"),
        }
        assert(s@ =~= side_text(*self));
        s
    }
}

#[derive(Clone, Copy, Debug, PartialEq, Eq, Structural)]
pub enum Mode {
    Preferred,
    Fixed(Resolution),
}

pub open spec fn parse_mode(s: Seq<char>) -> Option<Mode> {
    if s == "preferred"@ {
        Some(Mode::Preferred)
    } else {
        match parse_resolution(s) {
            Some(r) => Some(Mode::Fixed(r)),
            None => None,
        }
    }
}

pub open spec fn mode_text(m: Mode) -> Seq<char> {
    match m {
        Mode::Preferred => "preferred"@,
        Mode::Fixed(r) => resolution_text(r),
    }
}

impl Mode {
    pub open spec fn spec_size(self) -> Option<Size> {
        match self {
            Mode::Preferred => None,
            Mode::Fixed(r) => Some(Size { width: r.width, height: r.height }),
        }
    }

    pub fn size(self) -> (s: Option<Size>)
        ensures
            s == self.spec_size(),
    {
        match self {
            Mode::Preferred => None,
            Mode::Fixed(r) => Some(r.size()),
        }
    }

    pub fn parse(s: &str) -> (r: Option<Self>)
        ensures
            r == parse_mode(s@),
    {
        if str_eq(s, "preferred") {
            return Some(Mode::Preferred);
        }
        match Resolution::parse(s) {
            Some(r) => Some(Mode::Fixed(r)),
            None => None,
        }
    }

    pub fn to_string(&self) -> (s: String)
        ensures
            s@ == mode_text(*self),
    {
        match self {
            Mode::Preferred => {
                let mut s = String::new();
                push_str(&mut s, "preferred");
                assert(s@ =~= mode_text(*self));
                s
            },
            Mode::Fixed(r) => r.to_string(),
        }
    }
}

#[derive(Clone, Copy, Debug, PartialEq, Eq, Structural)]
pub enum Scale {
    Auto,
    /// Ten-thousandths.
    Factor(i64),
}

pub open spec fn scale_factor(v: int) -> Scale {
    if v > 0 {
        Scale::Factor(v as i64)
    } else {
        Scale::Auto
    }
}

/// `auto`, or a positive decimal number; `None` for anything else.
pub open spec fn parse_scale(s: Seq<char>) -> Option<Scale> {
    if s == "auto"@ {
        Some(Scale::Auto)
    } else {
        match parse_decimal(s, SCALE_PLACES as nat) {
            Some(v) => if v > 0 {
                Some(Scale::Factor(v as i64))
            } else {
                None
            },
            None => None,
        }
    }
}

pub open spec fn scale_text(s: Scale) -> Seq<char> {
    match s {
        Scale::Auto => "auto"@,
        Scale::Factor(v) => fixed_text(v as int, SCALE_PLACES as nat),
    }
}

impl Scale {
    /// A compositor reports `0` for a screen it has switched off, which is not a scale.
    pub fn factor(value: i64) -> (s: Self)
        ensures
            s == scale_factor(value as int),
    {
        if value > 0 {
            Scale::Factor(value)
        } else {
            Scale::Auto
        }
    }

    pub open spec fn spec_value(self) -> Option<i64> {
        match self {
            Scale::Auto => None,
            Scale::Factor(v) => Some(v),
        }
    }

    pub fn value(self) -> (v: Option<i64>)
        ensures
            v == self.spec_value(),
    {
        match self {
            Scale::Auto => None,
            Scale::Factor(v) => Some(v),
        }
    }

    pub fn parse(s: &str) -> (r: Result<Self, UserError>)
        ensures
            match r {
                Ok(scale) => parse_scale(s@) == Some(scale),
                Err(e) => parse_scale(s@) is None && (e matches UserError::InvalidScale { value } && value@ == s@),
            },
    {
        if str_eq(s, "auto") {
            return Ok(Scale::Auto);
        }
        match parse_decimal_str(s, SCALE_PLACES) {
            Some(v) => {
                if v > 0 {
                    return Ok(Scale::Factor(v));
                }
            },
            None => {},
        }
        Err(UserError::InvalidScale { value: string_of(chars_of(s).as_slice()) })
    }

    pub fn to_string(&self) -> (s: String)
        ensures
            s@ == scale_text(*self),
    {
        let mut s = String::new();
        match self {
            Scale::Auto => push_str(&mut s, "auto"),
            Scale::Factor(v) => push_fixed(&mut s, *v, SCALE_PLACES),
        }
        assert(s@ =~= scale_text(*self));
        s
    }
}

/// A mode as written reads back as the same mode. A rate of `i64::MIN` millihertz is left out.
pub proof fn lemma_mode_round_trip(m: Mode)
    requires
        m matches Mode::Fixed(r) ==> r.refresh > i64::MIN,
    ensures
        parse_mode(mode_text(m)) == Some(m),
{
    reveal_strlit("preferred");
    if let Mode::Fixed(r) = m {
        lemma_resolution_round_trip(r);
        lemma_size_text(r.width, r.height);
        let t = resolution_text(r);
        assert(t[0] == size_text(r.width as int, r.height as int)[0]);
        assert(t != "preferred"@) by {
            assert("preferred"@[0] == 'p');
        }
    }
}

/// A scale as written reads back as the same scale; a factor that is not positive, which no
/// parse and no report gives, is left out.
pub proof fn lemma_scale_round_trip(s: Scale)
    requires
        s matches Scale::Factor(v) ==> v > 0,
    ensures
        parse_scale(scale_text(s)) == Some(s),
{
    reveal_strlit("auto");
    if let Scale::Factor(v) = s {
        lemma_fixed_text(v as int, SCALE_PLACES as nat);
        let t = fixed_text(v as int, SCALE_PLACES as nat);
        assert(t != "auto"@) by {
            assert("auto"@[0] == 'a');
            assert(is_digit(t[0]) || t[0] == '-');
        }
    }
}

#[derive(Clone, Copy, Debug, PartialEq, Eq, Structural)]
pub struct Point {
    pub x: i64,
    pub y: i64,
}

#[derive(Clone, Copy, Debug, PartialEq, Eq, Structural)]
pub enum Position {
    Auto,
    Toward(Direction),
    At(Point),
}

pub open spec fn parse_position(s: Seq<char>) -> Option<Position> {
    if s == "auto"@ {
        Some(Position::Auto)
    } else if s == "auto-left"@ {
        Some(Position::Toward(Direction::Left))
    } else if s == "auto-right"@ {
        Some(Position::Toward(Direction::Right))
    } else if s == "auto-up"@ {
        Some(Position::Toward(Direction::Above))
    } else if s == "auto-down"@ {
        Some(Position::Toward(Direction::Below))
    } else {
        match split_once(s, 'x') {
            Some((x, y)) => match (parse_int(trim(x)), parse_int(trim(y))) {
                (Some(x), Some(y)) => Some(Position::At(Point { x: x as i64, y: y as i64 })),
                _ => None,
            },
            None => None,
        }
    }
}

pub open spec fn position_text(p: Position) -> Seq<char> {
    match p {
        Position::Auto => "auto"@,
        Position::Toward(Direction::Left) => "auto-left"@,
        Position::Toward(Direction::Right) => "auto-right"@,
        Position::Toward(Direction::Above) => "auto-up"@,
        Position::Toward(Direction::Below) => "auto-down"@,
        Position::At(p) => int_text(p.x as int) + seq!['x'] + int_text(p.y as int),
    }
}

#[verifier::rlimit(50)]
#[verifier::spinoff_prover]
proof fn lemma_position_at_round_trip(pt: Point)
    ensures
        parse_position(position_text(Position::At(pt))) == Some(Position::At(pt)),
{
    reveal_strlit("auto");
    reveal_strlit("auto-left");
    reveal_strlit("auto-right");
    reveal_strlit("auto-up");
    reveal_strlit("auto-down");
    lemma_size_text(pt.x, pt.y);
    let t = position_text(Position::At(pt));
    assert(t == size_text(pt.x as int, pt.y as int));
    assert(t[0] != 'a') by {
        assert(is_digit(t[0]) || t[0] == '-');
    }
    assert(t != "auto"@ && t != "auto-left"@ && t != "auto-right"@ && t != "auto-up"@ && t
        != "auto-down"@) by {
        assert("auto"@[0] == 'a');
        assert("auto-left"@[0] == 'a');
        assert("auto-right"@[0] == 'a');
        assert("auto-up"@[0] == 'a');
        assert("auto-down"@[0] == 'a');
    }
}

proof fn lemma_position_names()
    ensures
        "auto"@ != "auto-left"@,
        "auto"@ != "auto-right"@,
        "auto"@ != "auto-up"@,
        "auto"@ != "auto-down"@,
        "auto-left"@ != "auto-right"@,
        "auto-left"@ != "auto-up"@,
        "auto-left"@ != "auto-down"@,
        "auto-right"@ != "auto-up"@,
        "auto-right"@ != "auto-down"@,
        "auto-up"@ != "auto-down"@,
{
    reveal_strlit("auto");
    reveal_strlit("auto-left");
    reveal_strlit("auto-right");
    reveal_strlit("auto-up");
    reveal_strlit("auto-down");
    assert("auto"@.len() == 4);
    assert("auto-up"@.len() == 7);
    assert("auto-left"@.len() == 9);
    assert("auto-down"@.len() == 9);
    assert("auto-right"@.len() == 10);
    assert("auto-left"@[5] != "auto-down"@[5]);
}

/// A position as written reads back as the same position.
pub proof fn lemma_position_round_trip(p: Position)
    ensures
        parse_position(position_text(p)) == Some(p),
{
    match p {
        Position::At(pt) => lemma_position_at_round_trip(pt),
        _ => lemma_position_names(),
    }
}

/// The side of the anchor a direction lays a screen out on.
pub open spec fn direction_side(d: Direction) -> Side {
    match d {
        Direction::Left => Side::LeftOf,
        Direction::Right => Side::RightOf,
        Direction::Above => Side::Above,
        Direction::Below => Side::Below,
    }
}

/// The word hyprland names a screen edge by: along the horizontal axis the edge before is
/// `left` and the one after `right`; along the vertical axis, where y grows downward, the edge
/// before is `up` and the one after `down`.
pub open spec fn edge_word(axis: Axis, before: bool) -> Seq<char> {
    match axis {
        Axis::Horizontal => if before {
            "left"@
        } else {
            "right"@
        },
        Axis::Vertical => if before {
            "up"@
        } else {
            "down"@
        },
    }
}

/// A screen laid out toward a direction is written as hyprland's automatic position for the
/// edge on that side of the anchor (`auto-up` puts it above, `auto-down` below, `auto-left` to
/// the left, `auto-right` to the right), and reads back as the same direction.
pub proof fn lemma_automatic_position_names_its_side(d: Direction)
    ensures
        position_text(Position::Toward(d)) == "auto-"@ + edge_word(
            side_axis(direction_side(d)),
            side_before(direction_side(d)),
        ),
        parse_position(position_text(Position::Toward(d))) == Some(Position::Toward(d)),
{
    reveal_strlit("auto-left");
    reveal_strlit("auto-right");
    reveal_strlit("auto-up");
    reveal_strlit("auto-down");
    reveal_strlit("auto-");
    reveal_strlit("left");
    reveal_strlit("right");
    reveal_strlit("up");
    reveal_strlit("down");
    assert(position_text(Position::Toward(d)) =~= "auto-"@ + edge_word(
        side_axis(direction_side(d)),
        side_before(direction_side(d)),
    ));
    lemma_position_round_trip(Position::Toward(d));
}

/// A placement as a profile writes it, mode, position and scale, reads back as the same
/// placement; what no parse or report gives (a rate of `i64::MIN` millihertz, a factor that is
/// not positive) is left out.
pub proof fn lemma_placement_round_trip(p: Placement)
    requires
        p.mode matches Mode::Fixed(r) ==> r.refresh > i64::MIN,
        p.scale matches Scale::Factor(v) ==> v > 0,
    ensures
        parse_mode(mode_text(p.mode)) == Some(p.mode),
        parse_position(position_text(p.position)) == Some(p.position),
        parse_scale(scale_text(p.scale)) == Some(p.scale),
{
    lemma_mode_round_trip(p.mode);
    lemma_position_round_trip(p.position);
    lemma_scale_round_trip(p.scale);
}

impl Position {
    pub fn parse(s: &str) -> (r: Option<Self>)
        ensures
            r == parse_position(s@),
    {
        if str_eq(s, "auto") {
            return Some(Position::Auto);
        }
        if str_eq(s, "auto-left") {
            return Some(Position::Toward(Direction::Left));
        }
        if str_eq(s, "auto-right") {
            return Some(Position::Toward(Direction::Right));
        }
        if str_eq(s, "auto-up") {
            return Some(Position::Toward(Direction::Above));
        }
        if str_eq(s, "auto-down") {
            return Some(Position::Toward(Direction::Below));
        }
        let v = chars_of(s);
        match split_once_chars(v.as_slice(), 'x') {
            Some((x, y)) => {
                let xt = trim_chars(x.as_slice());
                let yt = trim_chars(y.as_slice());
                match (parse_int_chars(xt.as_slice()), parse_int_chars(yt.as_slice())) {
                    (Some(x), Some(y)) => Some(Position::At(Point { x, y })),
                    _ => None,
                }
            },
            None => None,
        }
    }

    pub fn to_string(&self) -> (s: String)
        ensures
            s@ == position_text(*self),
    {
        let mut s = String::new();
        match self {
            Position::Auto => push_str(&mut s, "auto"),
            Position::Toward(Direction::Left) => push_str(&mut s, "auto-left"),
            Position::Toward(Direction::Right) => push_str(&mut s, "auto-right"),
            Position::Toward(Direction::Above) => push_str(&mut s, "auto-up"),
            Position::Toward(Direction::Below) => push_str(&mut s, "auto-down"),
            Position::At(p) => {
                push_int(&mut s, p.x);
                push_char(&mut s, 'x');
                push_int(&mut s, p.y);
            },
        }
        assert(s@ =~= position_text(*self));
        s
    }
}

#[derive(Clone, Debug, PartialEq, Eq)]
pub enum State {
    On,
    Off,
    Mirroring(String),
}

pub enum StateView {
    On,
    Off,
    Mirroring(Seq<char>),
}

impl View for State {
    type V = StateView;

    open spec fn view(&self) -> StateView {
        match self {
            State::On => StateView::On,
            State::Off => StateView::Off,
            State::Mirroring(d) => StateView::Mirroring(d@),
        }
    }
}

impl State {
    /// A copy with the same meaning.
    pub fn duplicate(&self) -> (s: Self)
        ensures
            s@ == self@,
    {
        match self {
            State::On => State::On,
            State::Off => State::Off,
            State::Mirroring(d) => State::Mirroring(d.clone()),
        }
    }

    pub fn same(&self, other: &Self) -> (b: bool)
        ensures
            b == (self@ == other@),
    {
        match (self, other) {
            (State::On, State::On) => true,
            (State::Off, State::Off) => true,
            (State::Mirroring(a), State::Mirroring(b)) => {
                let r = str_eq(a.as_str(), b.as_str());
                r
            },
            _ => false,
        }
    }
}

#[derive(Clone, Copy, Debug, PartialEq, Eq, Structural)]
pub struct Placement {
    pub mode: Mode,
    pub position: Position,
    pub scale: Scale,
}

pub open spec fn default_placement() -> Placement {
    Placement { mode: Mode::Preferred, position: Position::Auto, scale: Scale::Auto }
}

impl Default for Placement {
    fn default() -> (p: Self)
        ensures
            p == default_placement(),
    {
        Placement { mode: Mode::Preferred, position: Position::Auto, scale: Scale::Auto }
    }
}

/// `n / d` rounded half away from zero, as `f64::round` rounds, for `d > 0`.
pub open spec fn div_round(n: int, d: int) -> int {
    if n >= 0 {
        (2 * n + d) / (2 * d)
    } else {
        -((2 * (-n) + d) / (2 * d))
    }
}

/// `v` saturated into the range of an `i64`, as a float-to-integer cast saturates.
pub open spec fn saturate(v: int) -> int {
    if v > i64::MAX {
        i64::MAX as int
    } else if v < i64::MIN {
        i64::MIN as int
    } else {
        v
    }
}

/// A length in pixels divided by a scale in ten-thousandths, rounded.
pub open spec fn scaled(len: int, scale: int) -> int {
    saturate(div_round(len * UNIT_SCALE, scale))
}

/// Hyprland lays windows out in logical pixels, so a screen occupies its mode divided by scale.
pub open spec fn logical_size_of(p: Placement) -> Option<Size> {
    match p.mode.spec_size() {
        None => None,
        Some(size) => {
            let s = match p.scale {
                Scale::Factor(v) => v as int,
                Scale::Auto => UNIT_SCALE as int,
            };
            if s > 0 {
                Some(
                    Size {
                        width: scaled(size.width as int, s) as i64,
                        height: scaled(size.height as int, s) as i64,
                    },
                )
            } else {
                Some(size)
            }
        },
    }
}

fn scaled_len(len: i64, scale: i64) -> (r: i64)
    requires
        scale > 0,
    ensures
        r == scaled(len as int, scale as int),
{
    let n: i128 = len as i128 * 10000;
    let d: i128 = scale as i128;
    let q: i128 = if n >= 0 {
        (2 * n + d) / (2 * d)
    } else {
        -((2 * (-n) + d) / (2 * d))
    };
    if q > i64::MAX as i128 {
        i64::MAX
    } else if q < i64::MIN as i128 {
        i64::MIN
    } else {
        q as i64
    }
}

impl Placement {
    /// The size the screen occupies in logical pixels; `None` before a mode is resolved.
    pub fn logical_size(&self) -> (s: Option<Size>)
        ensures
            s == logical_size_of(*self),
    {
        let size = match self.mode.size() {
            Some(size) => size,
            None => return None,
        };
        let s = match self.scale {
            Scale::Factor(v) => v,
            Scale::Auto => UNIT_SCALE,
        };
        if s > 0 {
            Some(Size { width: scaled_len(size.width, s), height: scaled_len(size.height, s) })
        } else {
            Some(size)
        }
    }
}

#[derive(Clone, Debug, PartialEq, Eq)]
pub struct Screen {
    pub state: State,
    pub placement: Placement,
}

pub struct ScreenView {
    pub state: StateView,
    pub placement: Placement,
}

impl View for Screen {
    type V = ScreenView;

    open spec fn view(&self) -> ScreenView {
        ScreenView { state: self.state@, placement: self.placement }
    }
}

impl ScreenView {
    pub open spec fn on(self) -> bool {
        self.state is On
    }

    pub open spec fn off(self) -> bool {
        self.state is Off
    }
}

impl Screen {
    pub fn is_on(&self) -> (b: bool)
        ensures
            b == self@.on(),
    {
        matches!(self.state, State::On)
    }

    pub fn is_off(&self) -> (b: bool)
        ensures
            b == self@.off(),
    {
        matches!(self.state, State::Off)
    }

    pub fn duplicate(&self) -> (s: Self)
        ensures
            s@ == self@,
    {
        Screen { state: self.state.duplicate(), placement: self.placement }
    }
}

// ---------------------------------------------------------------------------------------------
// The screens of a layout: entries kept sorted by description.
// ---------------------------------------------------------------------------------------------

pub type Entries = Seq<(Seq<char>, ScreenView)>;

/// Descriptions strictly increasing, so each occurs once and iteration is in key order.
pub open spec fn sorted_keys(es: Entries) -> bool {
    forall|i: int, j: int| 0 <= i < j < es.len() ==> seq_lt(#[trigger] es[i].0, #[trigger] es[j].0)
}

pub open spec fn has_key(es: Entries, k: Seq<char>) -> bool {
    exists|i: int| 0 <= i < es.len() && #[trigger] es[i].0 == k
}

pub open spec fn key_index(es: Entries, k: Seq<char>) -> int {
    choose|i: int| 0 <= i < es.len() && #[trigger] es[i].0 == k
}

/// The screen stored under a description.
pub open spec fn lookup(es: Entries, k: Seq<char>) -> Option<ScreenView> {
    if has_key(es, k) {
        Some(es[key_index(es, k)].1)
    } else {
        None
    }
}

pub proof fn lemma_sorted_unique(es: Entries, i: int, j: int)
    requires
        sorted_keys(es),
        0 <= i < es.len(),
        0 <= j < es.len(),
        es[i].0 == es[j].0,
    ensures
        i == j,
{
    if i < j {
        assert(seq_lt(es[i].0, es[j].0));
        lemma_seq_lt_irreflexive(es[i].0);
    } else if j < i {
        assert(seq_lt(es[j].0, es[i].0));
        lemma_seq_lt_irreflexive(es[i].0);
    }
}

pub proof fn lemma_lookup_at(es: Entries, i: int)
    requires
        sorted_keys(es),
        0 <= i < es.len(),
    ensures
        has_key(es, es[i].0),
        key_index(es, es[i].0) == i,
        lookup(es, es[i].0) == Some(es[i].1),
{
    assert(has_key(es, es[i].0));
    let j = key_index(es, es[i].0);
    lemma_sorted_unique(es, i, j);
}

/// Two sorted entry lists with the same lookups are the same list.
pub proof fn lemma_entries_unique(a: Entries, b: Entries)
    requires
        sorted_keys(a),
        sorted_keys(b),
        forall|k: Seq<char>| #[trigger] has_key(a, k) <==> has_key(b, k),
        forall|k: Seq<char>| #[trigger] lookup(a, k) == lookup(b, k),
    ensures
        a == b,
    decreases a.len(),
{
    if a.len() == 0 {
        if b.len() > 0 {
            assert(has_key(b, b[0].0));
            assert(has_key(a, b[0].0));
            let i = choose|i: int| 0 <= i < a.len() && #[trigger] a[i].0 == b[0].0;
            assert(false);
        }
        assert(a =~= b);
    } else {
        assert(has_key(a, a[0].0));
        assert(has_key(b, a[0].0));
        let k = choose|k: int| 0 <= k < b.len() && #[trigger] b[k].0 == a[0].0;
        assert(b.len() > 0);
        assert(has_key(b, b[0].0));
        assert(has_key(a, b[0].0));
        let m = choose|m: int| 0 <= m < a.len() && #[trigger] a[m].0 == b[0].0;
        if k > 0 {
            assert(seq_lt(b[0].0, b[k].0));
            if m > 0 {
                assert(seq_lt(a[0].0, a[m].0));
                lemma_seq_lt_asymmetric(a[0].0, b[0].0);
            } else {
                lemma_seq_lt_irreflexive(a[0].0);
            }
        } else if m > 0 {
            assert(seq_lt(a[0].0, a[m].0));
            lemma_seq_lt_irreflexive(a[0].0);
        }
        let x = a[0].0;
        lemma_lookup_at(a, 0);
        lemma_lookup_at(b, 0);
        assert(lookup(a, x) == lookup(b, x));
        assert(a[0] == b[0]);
        let ta = a.drop_first();
        let tb = b.drop_first();
        assert forall|i: int, j: int| 0 <= i < j < ta.len() implies seq_lt(
            #[trigger] ta[i].0,
            #[trigger] ta[j].0,
        ) by {
            assert(seq_lt(a[i + 1].0, a[j + 1].0));
        }
        assert forall|i: int, j: int| 0 <= i < j < tb.len() implies seq_lt(
            #[trigger] tb[i].0,
            #[trigger] tb[j].0,
        ) by {
            assert(seq_lt(b[i + 1].0, b[j + 1].0));
        }
        assert forall|key: Seq<char>| #[trigger] has_key(ta, key) <==> has_key(tb, key) by {
            if has_key(ta, key) {
                let i = choose|i: int| 0 <= i < ta.len() && #[trigger] ta[i].0 == key;
                assert(a[i + 1].0 == key);
                assert(seq_lt(x, key));
                lemma_seq_lt_irreflexive(x);
                assert(has_key(a, key));
                assert(has_key(b, key));
                let j = choose|j: int| 0 <= j < b.len() && #[trigger] b[j].0 == key;
                assert(j != 0);
                assert(tb[j - 1].0 == key);
            }
            if has_key(tb, key) {
                let i = choose|i: int| 0 <= i < tb.len() && #[trigger] tb[i].0 == key;
                assert(b[i + 1].0 == key);
                assert(seq_lt(x, key));
                lemma_seq_lt_irreflexive(x);
                assert(has_key(b, key));
                assert(has_key(a, key));
                let j = choose|j: int| 0 <= j < a.len() && #[trigger] a[j].0 == key;
                assert(j != 0);
                assert(ta[j - 1].0 == key);
            }
        }
        assert forall|key: Seq<char>| #[trigger] lookup(ta, key) == lookup(tb, key) by {
            if has_key(ta, key) {
                let i = choose|i: int| 0 <= i < ta.len() && #[trigger] ta[i].0 == key;
                lemma_lookup_at(ta, i);
                lemma_lookup_at(a, i + 1);
                assert(has_key(tb, key));
                let j = choose|j: int| 0 <= j < tb.len() && #[trigger] tb[j].0 == key;
                lemma_lookup_at(tb, j);
                lemma_lookup_at(b, j + 1);
                assert(lookup(a, key) == lookup(b, key));
            }
        }
        lemma_entries_unique(ta, tb);
        assert(a =~= seq![a[0]] + ta);
        assert(b =~= seq![b[0]] + tb);
    }
}

pub struct LayoutView {
    pub anchor: Option<Seq<char>>,
    pub screens: Entries,
}

#[derive(Clone, Debug, PartialEq, Eq)]
pub struct Layout {
    pub anchor: Option<String>,
    pub screens: Vec<(String, Screen)>,
}

pub open spec fn opt_view(o: Option<String>) -> Option<Seq<char>> {
    match o {
        Some(s) => Some(s@),
        None => None,
    }
}

pub open spec fn entries_view(v: Seq<(String, Screen)>) -> Entries {
    Seq::new(v.len(), |i: int| (v[i].0@, v[i].1@))
}

impl View for Layout {
    type V = LayoutView;

    open spec fn view(&self) -> LayoutView {
        LayoutView { anchor: opt_view(self.anchor), screens: entries_view(self.screens@) }
    }
}

impl LayoutView {
    pub open spec fn wf(self) -> bool {
        sorted_keys(self.screens)
    }

    pub open spec fn get(self, k: Seq<char>) -> Option<ScreenView> {
        lookup(self.screens, k)
    }

    pub open spec fn contains(self, k: Seq<char>) -> bool {
        has_key(self.screens, k)
    }

    /// How many screens are lit: switched on or mirroring.
    pub open spec fn enabled_count(self) -> nat {
        self.screens.filter(|e: (Seq<char>, ScreenView)| !e.1.off()).len()
    }
}

pub fn copy_opt_string(o: &Option<String>) -> (r: Option<String>)
    ensures
        opt_view(r) == opt_view(*o),
{
    match o {
        Some(s) => Some(s.clone()),
        None => None,
    }
}

impl Default for Layout {
    fn default() -> (l: Self)
        ensures
            l@.anchor is None,
            l@.screens.len() == 0,
            l@.wf(),
    {
        Layout { anchor: None, screens: Vec::new() }
    }
}

impl Layout {
    pub fn new() -> (l: Self)
        ensures
            l@.anchor is None,
            l@.screens.len() == 0,
            l@.wf(),
    {
        Layout { anchor: None, screens: Vec::new() }
    }

    /// Whether the screens are kept in order, each description once.
    pub fn is_well_formed(&self) -> (b: bool)
        ensures
            b == self@.wf(),
    {
        let ghost es = self@.screens;
        let mut i: usize = 1;
        if self.screens.len() == 0 {
            return true;
        }
        while i < self.screens.len()
            invariant
                1 <= i <= self.screens.len(),
                es == self@.screens,
                forall|a: int, b: int| 0 <= a < b < i ==> seq_lt(#[trigger] es[a].0, #[trigger] es[b].0),
            decreases self.screens.len() - i,
        {
            if !str_lt(self.screens[i - 1].0.as_str(), self.screens[i].0.as_str()) {
                proof {
                    assert(es[i - 1].0 == self.screens@[i - 1].0@);
                    assert(es[i as int].0 == self.screens@[i as int].0@);
                    assert(!seq_lt(es[i - 1].0, es[i as int].0));
                    assert(!sorted_keys(es));
                }
                return false;
            }
            proof {
                assert forall|a: int, b: int| 0 <= a < b < i + 1 implies seq_lt(
                    #[trigger] es[a].0,
                    #[trigger] es[b].0,
                ) by {
                    if b == i && a < i - 1 {
                        lemma_seq_lt_transitive(es[a].0, es[i - 1].0, es[b].0);
                    }
                }
            }
            i = i + 1;
        }
        true
    }

    /// How many screens are stored.
    pub fn len(&self) -> (n: usize)
        ensures
            n == self@.screens.len(),
    {
        self.screens.len()
    }

    /// Where a description is stored, if it is.
    pub fn index_of(&self, desc: &str) -> (r: Option<usize>)
        requires
            self@.wf(),
        ensures
            match r {
                Some(i) => i < self@.screens.len() && self@.screens[i as int].0 == desc@,
                None => !self@.contains(desc@),
            },
    {
        let mut i: usize = 0;
        while i < self.screens.len()
            invariant
                i <= self.screens.len(),
                forall|j: int| 0 <= j < i ==> self@.screens[j].0 != desc@,
            decreases self.screens.len() - i,
        {
            if str_eq(self.screens[i].0.as_str(), desc) {
                return Some(i);
            }
            i = i + 1;
        }
        None
    }

    pub fn contains_key(&self, desc: &str) -> (b: bool)
        requires
            self@.wf(),
        ensures
            b == self@.contains(desc@),
    {
        self.index_of(desc).is_some()
    }

    /// The screen stored under a description.
    pub fn get(&self, desc: &str) -> (r: Option<&Screen>)
        requires
            self@.wf(),
        ensures
            match r {
                Some(s) => self@.get(desc@) == Some(s@),
                None => self@.get(desc@) is None,
            },
    {
        match self.index_of(desc) {
            Some(i) => {
                proof {
                    lemma_lookup_at(self@.screens, i as int);
                }
                Some(&self.screens[i].1)
            },
            None => None,
        }
    }

    /// The description and screen at a position in key order.
    pub fn entry(&self, i: usize) -> (r: (&String, &Screen))
        requires
            i < self@.screens.len(),
        ensures
            r.0@ == self@.screens[i as int].0,
            r.1@ == self@.screens[i as int].1,
    {
        (&self.screens[i].0, &self.screens[i].1)
    }

    /// The descriptions, in order.
    pub fn keys(&self) -> (r: Vec<String>)
        ensures
            r@.len() == self@.screens.len(),
            forall|i: int| 0 <= i < r@.len() ==> #[trigger] r@[i]@ == self@.screens[i].0,
    {
        let mut r: Vec<String> = Vec::new();
        let mut i: usize = 0;
        while i < self.screens.len()
            invariant
                i <= self.screens.len(),
                r@.len() == i,
                forall|j: int| 0 <= j < i ==> #[trigger] r@[j]@ == self@.screens[j].0,
            decreases self.screens.len() - i,
        {
            r.push(self.screens[i].0.clone());
            i = i + 1;
        }
        r
    }

    /// Stores a screen under a description, replacing what was there.
    pub fn insert(&mut self, desc: String, screen: Screen)
        requires
            old(self)@.wf(),
        ensures
            final(self)@.wf(),
            final(self)@.anchor == old(self)@.anchor,
            final(self)@.get(desc@) == Some(screen@),
            forall|k: Seq<char>| k != desc@ ==> #[trigger] final(self)@.get(k) == old(self)@.get(k),
            forall|k: Seq<char>| #[trigger] final(self)@.contains(k) <==> (old(self)@.contains(k) || k == desc@),
    {
        let ghost old_es = self@.screens;
        let mut i: usize = 0;
        while i < self.screens.len() && str_lt(self.screens[i].0.as_str(), desc.as_str())
            invariant
                i <= self.screens.len(),
                self@.screens == old_es,
                sorted_keys(old_es),
                forall|j: int| 0 <= j < i ==> seq_lt(#[trigger] old_es[j].0, desc@),
            decreases self.screens.len() - i,
        {
            i = i + 1;
        }
        let replace = i < self.screens.len() && str_eq(self.screens[i].0.as_str(), desc.as_str());
        let ghost e = (desc@, screen@);
        if replace {
            self.screens.set(i, (desc, screen));
            proof {
                assert(self@.screens =~= old_es.update(i as int, e));
                lemma_sorted_update(old_es, i as int, e);
                lemma_lookup_update(old_es, i as int, e);
            }
        } else {
            proof {
                if i < old_es.len() {
                    lemma_seq_lt_total(old_es[i as int].0, e.0);
                }
            }
            self.screens.insert(i, (desc, screen));
            proof {
                assert(self@.screens =~= old_es.insert(i as int, e));
                lemma_sorted_insert(old_es, i as int, e);
                lemma_lookup_insert(old_es, i as int, e);
            }
        }
    }
}

pub proof fn lemma_sorted_update(es: Entries, i: int, e: (Seq<char>, ScreenView))
    requires
        sorted_keys(es),
        0 <= i < es.len(),
        es[i].0 == e.0,
    ensures
        sorted_keys(es.update(i, e)),
{
    let n = es.update(i, e);
    assert forall|a: int, b: int| 0 <= a < b < n.len() implies seq_lt(
        #[trigger] n[a].0,
        #[trigger] n[b].0,
    ) by {
        assert(es[a].0 == n[a].0 && es[b].0 == n[b].0);
    }
}

pub proof fn lemma_lookup_update(es: Entries, i: int, e: (Seq<char>, ScreenView))
    requires
        sorted_keys(es),
        0 <= i < es.len(),
        es[i].0 == e.0,
    ensures
        lookup(es.update(i, e), e.0) == Some(e.1),
        forall|k: Seq<char>| k != e.0 ==> #[trigger] lookup(es.update(i, e), k) == lookup(es, k),
        forall|k: Seq<char>| #[trigger] has_key(es.update(i, e), k) <==> has_key(es, k),
{
    let n = es.update(i, e);
    lemma_sorted_update(es, i, e);
    lemma_lookup_at(n, i);
    assert forall|k: Seq<char>| k != e.0 implies #[trigger] lookup(n, k) == lookup(es, k) by {
        if has_key(n, k) {
            let j = key_index(n, k);
            lemma_lookup_at(n, j);
            lemma_lookup_at(es, j);
        } else if has_key(es, k) {
            let j = key_index(es, k);
            assert(n[j].0 == k);
        }
    }
    assert forall|k: Seq<char>| #[trigger] has_key(n, k) <==> has_key(es, k) by {
        if has_key(n, k) {
            let j = key_index(n, k);
            assert(es[j].0 == k);
        }
        if has_key(es, k) {
            let j = key_index(es, k);
            assert(n[j].0 == k);
        }
    }
}

pub proof fn lemma_sorted_insert(es: Entries, i: int, e: (Seq<char>, ScreenView))
    requires
        sorted_keys(es),
        0 <= i <= es.len(),
        forall|j: int| 0 <= j < i ==> seq_lt(#[trigger] es[j].0, e.0),
        i < es.len() ==> seq_lt(e.0, es[i].0),
    ensures
        sorted_keys(es.insert(i, e)),
{
    let n = es.insert(i, e);
    assert forall|a: int, b: int| 0 <= a < b < n.len() implies seq_lt(
        #[trigger] n[a].0,
        #[trigger] n[b].0,
    ) by {
        if b < i {
            assert(n[a] == es[a] && n[b] == es[b]);
        } else if b == i {
            assert(n[a] == es[a]);
        } else {
            assert(n[b] == es[b - 1]);
            if b - 1 > i {
                assert(seq_lt(es[i].0, es[b - 1].0));
                lemma_seq_lt_transitive(e.0, es[i].0, es[b - 1].0);
            }
            if a < i {
                assert(n[a] == es[a]);
                lemma_seq_lt_transitive(es[a].0, e.0, es[b - 1].0);
            } else if a > i {
                assert(n[a] == es[a - 1]);
            }
        }
    }
}

pub proof fn lemma_lookup_insert(es: Entries, i: int, e: (Seq<char>, ScreenView))
    requires
        sorted_keys(es),
        0 <= i <= es.len(),
        forall|j: int| 0 <= j < i ==> seq_lt(#[trigger] es[j].0, e.0),
        i < es.len() ==> seq_lt(e.0, es[i].0),
    ensures
        lookup(es.insert(i, e), e.0) == Some(e.1),
        forall|k: Seq<char>| k != e.0 ==> #[trigger] lookup(es.insert(i, e), k) == lookup(es, k),
        forall|k: Seq<char>| #[trigger] has_key(es.insert(i, e), k) <==> (has_key(es, k) || k == e.0),
{
    let n = es.insert(i, e);
    lemma_sorted_insert(es, i, e);
    lemma_lookup_at(n, i);
    assert forall|k: Seq<char>| k != e.0 implies #[trigger] lookup(n, k) == lookup(es, k) by {
        if has_key(n, k) {
            let j = key_index(n, k);
            lemma_lookup_at(n, j);
            if j < i {
                lemma_lookup_at(es, j);
            } else {
                lemma_lookup_at(es, j - 1);
            }
        } else if has_key(es, k) {
            let j = key_index(es, k);
            if j < i {
                assert(n[j].0 == k);
            } else {
                assert(n[j + 1].0 == k);
            }
        }
    }
    assert forall|k: Seq<char>| #[trigger] has_key(n, k) <==> (has_key(es, k) || k == e.0) by {
        if has_key(n, k) && k != e.0 {
            let j = key_index(n, k);
            if j < i {
                assert(es[j].0 == k);
            } else {
                assert(es[j - 1].0 == k);
            }
        }
        if has_key(es, k) {
            let j = key_index(es, k);
            if j < i {
                assert(n[j].0 == k);
            } else {
                assert(n[j + 1].0 == k);
            }
        }
        if k == e.0 {
            assert(n[i].0 == k);
        }
    }
}

} // verus!
