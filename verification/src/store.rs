//! Where layouts, wallpapers and cursors are kept, and the names they are kept under.
use sha2::Digest;
use vstd::prelude::*;

use crate::compositor::{monitors_view, Monitor, MonitorView};
use crate::error::Error;
use crate::layout::Layout;
use crate::sort::{dedup_sorted, sort_strings, sorted_seq, sorted_set, strings_view};
use crate::text::{push_char, push_string, str_eq, starts_with};

verus! {

pub trait LayoutStore {
    fn load(&self, monitors: &[Monitor]) -> Result<Option<Layout>, Error>;

    /// Only a profile that keeps its screens in order is ever stored.
    fn save(&self, monitors: &[Monitor], layout: &Layout) -> Result<(), Error>
        requires
            layout@.wf(),
    ;

    fn render(&self, rules: &str) -> Result<(), Error>;

    fn reset(&self, monitors: &[Monitor]) -> Result<(), Error>;

    /// Hotplug hooks and menu actions both mutate the layout, so a whole command runs under one
    /// exclusive lock rather than each read and write taking its own.
    fn lock(&self) -> Result<(), Error>;

    fn unlock(&self);
}

/// A call made on the wallpaper collection, with what it answered, as a command records it.
pub enum WallpaperStoreCall {
    Dir(String),
    List(Result<Vec<String>, Error>),
    Contains(Seq<char>, bool),
    Current(Option<String>),
    HasCurrent(bool),
    PointCurrentAt(Seq<char>, Result<String, Error>),
    LoadPreferred(Option<String>),
    SavePreferred(Seq<char>, Result<(), Error>),
    ForgetPreferred,
}

pub trait WallpaperStore {
    fn dir(&self) -> String;

    fn list(&self) -> Result<Vec<String>, Error>;

    fn contains(&self, name: &str) -> bool;

    fn current(&self) -> Option<String>;

    fn has_current(&self) -> bool;

    /// Points the current link at a wallpaper and returns its path.
    fn point_current_at(&self, name: &str) -> Result<String, Error>;

    fn load_preferred(&self) -> Option<String>;

    fn save_preferred(&self, name: &str) -> Result<(), Error>;

    fn forget_preferred(&self);
}

#[derive(Clone, Debug, PartialEq, Eq)]
pub struct PreferredCursor {
    pub name: String,
    pub size: i64,
}

/// A call made on the cursor collection, with what it answered, as a command records it.
pub enum CursorStoreCall {
    List(Result<Vec<String>, Error>),
    LoadPreferred(Option<PreferredCursor>),
    SavePreferred(Seq<char>, i64, Result<(), Error>),
    ForgetPreferred,
}

pub trait CursorStore {
    fn list(&self) -> Result<Vec<String>, Error>;

    fn load_preferred(&self) -> Option<PreferredCursor>;

    fn save_preferred(&self, name: &str, size: i64) -> Result<(), Error>;

    fn forget_preferred(&self);
}

// ---------------------------------------------------------------------------------------------
// The profile a set of monitors is stored under
// ---------------------------------------------------------------------------------------------

/// The SHA-256 digest of some bytes.
pub uninterp spec fn sha256(data: Seq<u8>) -> Seq<u8>;

/// `sha2::Sha256::digest`: the digest of the bytes, which is 32 bytes long.
#[verifier::external_body]
fn sha256_digest(data: &[u8]) -> (r: Vec<u8>)
    ensures
        r@ == sha256(data@),
        r@.len() == 32,
{
    sha2::Sha256::digest(data).to_vec()
}

/// Each string followed by a newline.
pub open spec fn lines_text(s: Seq<Seq<char>>) -> Seq<char>
    decreases s.len(),
{
    if s.len() == 0 {
        Seq::empty()
    } else {
        lines_text(s.drop_last()) + s.last() + seq!['\n']
    }
}

/// The strings joined by newlines, with a closing newline: a lone newline when there are none.
pub open spec fn joined_lines(s: Seq<Seq<char>>) -> Seq<char> {
    if s.len() == 0 {
        seq!['\n']
    } else {
        lines_text(s)
    }
}

pub open spec fn hex_digit(d: int) -> char {
    if d < 10 {
        ((d + ('0' as int)) as u32) as char
    } else {
        ((d - 10 + ('a' as int)) as u32) as char
    }
}

/// Bytes as two lowercase hexadecimal digits each.
pub open spec fn hex_text(b: Seq<u8>) -> Seq<char>
    decreases b.len(),
{
    if b.len() == 0 {
        Seq::empty()
    } else {
        hex_text(b.drop_last()) + seq![hex_digit(b.last() as int / 16), hex_digit(b.last() as int % 16)]
    }
}

pub open spec fn descriptions(ms: Seq<MonitorView>) -> Seq<Seq<char>> {
    Seq::new(ms.len(), |i: int| ms[i].description)
}

/// Connector names renumber across re-plugs, so a profile is addressed by its screens'
/// descriptions: the first six bytes of the digest of the sorted descriptions, joined by
/// newlines and closed by one.
pub open spec fn profile_key_text(ms: Seq<MonitorView>) -> Seq<char> {
    hex_text(sha256(vstd::utf8::encode_utf8(joined_lines(sorted_seq(descriptions(ms))))).take(6))
}

/// A profile is found again whatever order the compositor reports the screens in: its key
/// depends on which descriptions are connected, and how often each, alone.
pub proof fn lemma_profile_key_ignores_order(a: Seq<MonitorView>, b: Seq<MonitorView>)
    requires
        descriptions(a).to_multiset() == descriptions(b).to_multiset(),
    ensures
        profile_key_text(a) == profile_key_text(b),
{
    crate::sort::lemma_sorted_seq_same(descriptions(a), descriptions(b));
}

fn hex_char(d: u8) -> (c: char)
    requires
        d < 16,
    ensures
        c == hex_digit(d as int),
{
    let c: char = if d == 0 {
        '0'
    } else if d == 1 {
        '1'
    } else if d == 2 {
        '2'
    } else if d == 3 {
        '3'
    } else if d == 4 {
        '4'
    } else if d == 5 {
        '5'
    } else if d == 6 {
        '6'
    } else if d == 7 {
        '7'
    } else if d == 8 {
        '8'
    } else if d == 9 {
        '9'
    } else if d == 10 {
        'a'
    } else if d == 11 {
        'b'
    } else if d == 12 {
        'c'
    } else if d == 13 {
        'd'
    } else if d == 14 {
        'e'
    } else {
        'f'
    };
    c
}

/// The name a set of monitors' profile is stored under.
pub fn profile_key(monitors: &[Monitor]) -> (k: String)
    ensures
        k@ == profile_key_text(monitors_view(monitors@)),
{
    let ghost ms = monitors_view(monitors@);
    let mut descs: Vec<String> = Vec::new();
    let mut i: usize = 0;
    while i < monitors.len()
        invariant
            i <= monitors.len(),
            ms == monitors_view(monitors@),
            descs@.len() == i,
            forall|j: int| 0 <= j < i ==> (#[trigger] descs@[j])@ == ms[j].description,
        decreases monitors.len() - i,
    {
        let d = monitors[i].description.clone();
        assert(ms[i as int] == monitors@[i as int]@);
        descs.push(d);
        i = i + 1;
    }
    assert(strings_view(descs@) =~= descriptions(ms));
    let sorted = sort_strings(descs);
    let ghost sv = strings_view(sorted@);
    let mut joined = String::new();
    let mut t: usize = 0;
    while t < sorted.len()
        invariant
            t <= sorted.len(),
            sv == strings_view(sorted@),
            joined@ == lines_text(sv.take(t as int)),
        decreases sorted.len() - t,
    {
        push_string(&mut joined, &sorted[t]);
        push_char(&mut joined, '\n');
        proof {
            assert(sv.take(t + 1).drop_last() =~= sv.take(t as int));
            assert(joined@ =~= lines_text(sv.take(t + 1)));
        }
        t = t + 1;
    }
    assert(sv.take(sorted.len() as int) =~= sv);
    if sorted.len() == 0 {
        push_char(&mut joined, '\n');
        assert(joined@ =~= seq!['\n']);
    }
    let digest = sha256_digest(joined.as_str().as_bytes());
    digest_key(digest.as_slice())
}

/// The first six bytes of a digest, as the hexadecimal a profile is named by.
pub fn digest_key(digest: &[u8]) -> (k: String)
    requires
        digest@.len() >= 6,
    ensures
        k@ == hex_text(digest@.take(6)),
{
    let mut key = String::new();
    let mut b: usize = 0;
    while b < 6
        invariant
            b <= 6,
            digest@.len() >= 6,
            key@ == hex_text(digest@.take(b as int)),
        decreases 6 - b,
    {
        let byte = digest[b];
        push_char(&mut key, hex_char(byte / 16));
        push_char(&mut key, hex_char(byte % 16));
        proof {
            assert(digest@.take(b + 1).drop_last() =~= digest@.take(b as int));
            assert(key@ =~= hex_text(digest@.take(b + 1)));
        }
        b = b + 1;
    }
    key
}

// ---------------------------------------------------------------------------------------------
// Listings
// ---------------------------------------------------------------------------------------------

/// The name of the link to the wallpaper in use, which is not a wallpaper itself.
pub open spec fn current_link_name() -> Seq<char> {
    "current"@
}

/// A directory entry that is a wallpaper: not the current link, not hidden.
pub open spec fn is_wallpaper_name(name: Seq<char>) -> bool {
    name != current_link_name() && !"."@.is_prefix_of(name)
}

pub open spec fn wallpaper_candidates(names: Seq<Seq<char>>) -> Seq<Seq<char>>
    decreases names.len(),
{
    if names.len() == 0 {
        Seq::empty()
    } else {
        wallpaper_candidates(names.drop_last()) + if is_wallpaper_name(names.last()) {
            seq![names.last()]
        } else {
            Seq::empty()
        }
    }
}

/// The wallpapers among the non-directory entries of the wallpapers directory, sorted.
pub fn wallpaper_names(entries: Vec<String>) -> (r: Vec<String>)
    ensures
        strings_view(r@) == sorted_seq(wallpaper_candidates(strings_view(entries@))),
{
    let ghost ev = strings_view(entries@);
    let mut kept: Vec<String> = Vec::new();
    let mut i: usize = 0;
    while i < entries.len()
        invariant
            i <= entries.len(),
            ev == strings_view(entries@),
            strings_view(kept@) == wallpaper_candidates(ev.take(i as int)),
        decreases entries.len() - i,
    {
        let name = &entries[i];
        let ghost prev = strings_view(kept@);
        if !str_eq(name.as_str(), "current") && !starts_with(name.as_str(), ".") {
            kept.push(name.clone());
        }
        proof {
            assert(ev.take(i + 1).drop_last() =~= ev.take(i as int));
            assert(ev.take(i + 1).last() == name@);
            assert(strings_view(kept@) =~= wallpaper_candidates(ev.take(i + 1)));
        }
        i = i + 1;
    }
    assert(ev.take(entries.len() as int) =~= ev);
    sort_strings(kept)
}

/// Cursor theme names gathered from every theme root, sorted, each once.
pub fn cursor_theme_names(names: Vec<String>) -> (r: Vec<String>)
    ensures
        strings_view(r@) == sorted_set(strings_view(names@)),
{
    let sorted = sort_strings(names);
    proof {
        broadcast use vstd::seq_lib::group_to_multiset_ensures;
        let s = strings_view(sorted@);
        let n = strings_view(names@);
        assert forall|x: Seq<char>| s.contains(x) <==> n.contains(x) by {
            assert(s.contains(x) <==> s.to_multiset().count(x) > 0);
            assert(n.contains(x) <==> n.to_multiset().count(x) > 0);
        }
    }
    let r = dedup_sorted(sorted);
    proof {
        let s = strings_view(sorted@);
        let n = strings_view(names@);
        let a = sorted_set(s);
        let b = sorted_set(n);
        assert forall|x: Seq<char>| a.contains(x) <==> b.contains(x) by {
            assert(s.contains(x) <==> n.contains(x));
        }
        crate::sort::lemma_sorted_lt_unique(a, b);
    }
    r
}

} // verus!
