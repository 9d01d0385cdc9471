//! The wallpaper: choosing one, and remembering the one a person chose.
use vstd::prelude::*;

use crate::error::{Error, UserError};
use crate::store::{WallpaperStore, WallpaperStoreCall};
use crate::text::push_str;
use crate::theme::{ThemeCall, ThemeCtl};

verus! {

/// A call made on the wallpaper daemon, with what it answered, as a command records it.
pub enum WallpaperCall {
    Show(Seq<char>, Result<(), Error>),
}

pub trait WallpaperCtl {
    /// Shows the wallpaper at a path.
    fn apply(&self, path: &str) -> Result<(), Error>;
}

/// The first wallpaper of a listing, the one a fresh install starts with.
pub fn first_wallpaper(names: Vec<String>) -> (r: Result<String, UserError>)
    ensures
        names@.len() > 0 ==> r == Ok::<String, UserError>(names@[0]),
        names@.len() == 0 ==> r == Err::<String, UserError>(UserError::NoWallpapers),
{
    if names.len() > 0 {
        let mut names = names;
        Ok(names.swap_remove(0))
    } else {
        Err(UserError::NoWallpapers)
    }
}

/// Only a wallpaper of the collection can be shown.
pub fn known_wallpaper(known: bool, name: &str) -> (r: Result<(), Error>)
    ensures
        known ==> r is Ok,
        !known ==> (r matches Err(Error::User(UserError::UnknownWallpaper { name: n })) && n@
            == name@),
{
    if known {
        Ok(())
    } else {
        let mut n = String::new();
        push_str(&mut n, name);
        Err(Error::User(UserError::UnknownWallpaper { name: n }))
    }
}

/// The theme's `wallpaper`, which a theme without one cannot stand in for.
pub fn theme_wallpaper(value: Option<String>) -> (r: Result<String, Error>)
    ensures
        match value {
            Some(n) => r == Ok::<String, Error>(n),
            None => r == Err::<String, Error>(Error::User(UserError::NoPreferredWallpaper)),
        },
{
    match value {
        Some(n) => Ok(n),
        None => Err(Error::User(UserError::NoPreferredWallpaper)),
    }
}

/// The wallpaper in use, which there must be one of to remember it.
pub fn current_wallpaper(current: Option<String>) -> (r: Result<String, Error>)
    ensures
        match current {
            Some(n) => r == Ok::<String, Error>(n),
            None => r == Err::<String, Error>(Error::User(UserError::NoCurrentWallpaper)),
        },
{
    match current {
        Some(n) => Ok(n),
        None => Err(Error::User(UserError::NoCurrentWallpaper)),
    }
}

/// The calls made so far on the wallpaper's three controls.
pub struct WallpaperCalls {
    pub backend: Seq<WallpaperCall>,
    pub store: Seq<WallpaperStoreCall>,
    pub theme: Seq<ThemeCall>,
}

/// The calls once one more was made on the collection.
pub open spec fn after_store(a: WallpaperCalls, c: WallpaperStoreCall) -> WallpaperCalls {
    WallpaperCalls { store: a.store.push(c), ..a }
}

/// The calls once one more was made on the theme.
pub open spec fn after_theme(a: WallpaperCalls, c: ThemeCall) -> WallpaperCalls {
    WallpaperCalls { theme: a.theme.push(c), ..a }
}

/// Once the collection said it holds the wallpaper: the current link is pointed at it and,
/// unless that failed, the daemon is shown the path the collection answered, its answer being
/// the outcome `r`.
pub open spec fn pointed_and_shown(a: WallpaperCalls, b: WallpaperCalls, name: Seq<char>, r: Result<(), Error>) -> bool {
    exists|pointed: Result<String, Error>|
        #![trigger after_store(a, WallpaperStoreCall::PointCurrentAt(name, pointed))]
        {
            let m = after_store(a, WallpaperStoreCall::PointCurrentAt(name, pointed));
            match pointed {
                Err(e) => b == m && r == Err::<(), Error>(e),
                Ok(path) => b == (WallpaperCalls {
                    backend: m.backend.push(WallpaperCall::Show(path@, r)),
                    ..m
                }),
            }
        }
}

/// A wallpaper shown: the collection is asked whether it holds it, and one it lacks is
/// refused; otherwise it is pointed at and shown.
pub open spec fn shown(a: WallpaperCalls, b: WallpaperCalls, name: Seq<char>, r: Result<(), Error>) -> bool {
    exists|known: bool|
        #![trigger after_store(a, WallpaperStoreCall::Contains(name, known))]
        if !known {
            &&& b == after_store(a, WallpaperStoreCall::Contains(name, known))
            &&& r matches Err(Error::User(UserError::UnknownWallpaper { name: n }))
            &&& n@ == name
        } else {
            pointed_and_shown(after_store(a, WallpaperStoreCall::Contains(name, known)), b, name, r)
        }
}

/// The wallpaper in use remembered: the collection is asked which it is, and with none the
/// request is refused; otherwise it is saved as the preference and, unless that failed, the
/// theme rendered, the rendering's answer being the outcome `r`.
pub open spec fn current_saved(a: WallpaperCalls, b: WallpaperCalls, r: Result<(), Error>) -> bool {
    exists|c: Option<String>|
        #![trigger after_store(a, WallpaperStoreCall::Current(c))]
        match c {
            None => b == after_store(a, WallpaperStoreCall::Current(c)) && r == Err::<(), Error>(
                Error::User(UserError::NoCurrentWallpaper),
            ),
            Some(n) => exists|saved: Result<(), Error>|
                #![trigger after_store(after_store(a, WallpaperStoreCall::Current(c)), WallpaperStoreCall::SavePreferred(n@, saved))]
                {
                    let m = after_store(
                        after_store(a, WallpaperStoreCall::Current(c)),
                        WallpaperStoreCall::SavePreferred(n@, saved),
                    );
                    if saved is Err {
                        b == m && r == saved
                    } else {
                        b == after_theme(m, ThemeCall::Render(r))
                    }
                },
        }
}

/// A wallpaper set: shown, then, unless that failed, remembered.
pub open spec fn set_to(a: WallpaperCalls, b: WallpaperCalls, name: Seq<char>, r: Result<(), Error>) -> bool {
    exists|mid: WallpaperCalls, shown_r: Result<(), Error>|
        #[trigger] shown(a, mid, name, shown_r) && if shown_r is Err {
            b == mid && r == shown_r
        } else {
            current_saved(mid, b, r)
        }
}

/// The theme's wallpaper shown: the theme is asked for `wallpaper`, and a theme that names none
/// is refused.
pub open spec fn theme_wallpaper_shown(a: WallpaperCalls, b: WallpaperCalls, r: Result<(), Error>) -> bool {
    exists|g: Result<Option<String>, Error>|
        #![trigger after_theme(a, ThemeCall::GetVar("wallpaper"@, g))]
        {
            let m = after_theme(a, ThemeCall::GetVar("wallpaper"@, g));
            match g {
                Err(e) => b == m && r == Err::<(), Error>(e),
                Ok(None) => b == m && r == Err::<(), Error>(
                    Error::User(UserError::NoPreferredWallpaper),
                ),
                Ok(Some(n)) => shown(m, b, n@, r),
            }
        }
}

/// The preferred wallpaper shown: the collection is asked for the remembered one, which is
/// shown; without one, the theme's is. Nothing is remembered or rendered.
pub open spec fn preferred_shown(a: WallpaperCalls, b: WallpaperCalls, r: Result<(), Error>) -> bool {
    exists|p: Option<String>|
        #![trigger after_store(a, WallpaperStoreCall::LoadPreferred(p))]
        {
            let m = after_store(a, WallpaperStoreCall::LoadPreferred(p));
            match p {
                Some(n) => shown(m, b, n@, r),
                None => theme_wallpaper_shown(m, b, r),
            }
        }
}

/// The first wallpaper set on a fresh install: nothing is done when one is set already;
/// otherwise the collection is listed, an empty one refused, and the first it lists set.
pub open spec fn initialised(a: WallpaperCalls, b: WallpaperCalls, r: Result<(), Error>) -> bool {
    exists|has: bool|
        #![trigger after_store(a, WallpaperStoreCall::HasCurrent(has))]
        {
            let m = after_store(a, WallpaperStoreCall::HasCurrent(has));
            if has {
                b == m && r == Ok::<(), Error>(())
            } else {
                exists|listed: Result<Vec<String>, Error>|
                    #![trigger after_store(m, WallpaperStoreCall::List(listed))]
                    {
                        let m2 = after_store(m, WallpaperStoreCall::List(listed));
                        match listed {
                            Err(e) => b == m2 && r == Err::<(), Error>(e),
                            Ok(names) => if names@.len() == 0 {
                                b == m2 && r == Err::<(), Error>(Error::User(UserError::NoWallpapers))
                            } else {
                                set_to(m2, b, names@[0]@, r)
                            },
                        }
                    }
            }
        }
}

pub struct Wallpaper<'a> {
    pub backend: &'a dyn WallpaperCtl,
    pub store: &'a dyn WallpaperStore,
    pub theme: &'a dyn ThemeCtl,
    /// Every call this command made on its controls, in order, with what each answered.
    calls: Ghost<WallpaperCalls>,
}

impl<'a> Wallpaper<'a> {
    pub fn new(backend: &'a dyn WallpaperCtl, store: &'a dyn WallpaperStore, theme: &'a dyn ThemeCtl) -> (w: Self)
        ensures
            w.calls() == (WallpaperCalls { backend: Seq::empty(), store: Seq::empty(), theme: Seq::empty() }),
    {
        Wallpaper {
            backend,
            store,
            theme,
            calls: Ghost(WallpaperCalls { backend: Seq::empty(), store: Seq::empty(), theme: Seq::empty() }),
        }
    }
}

impl Wallpaper<'_> {
    pub closed spec fn calls(&self) -> WallpaperCalls {
        self.calls@
    }

    fn backend_apply(&mut self, path: &str) -> (r: Result<(), Error>)
        ensures
            final(self).calls() == (WallpaperCalls {
                backend: old(self).calls().backend.push(WallpaperCall::Show(path@, r)),
                ..old(self).calls()
            }),
    {
        let r = self.backend.apply(path);
        self.calls = Ghost(WallpaperCalls { backend: self.calls@.backend.push(WallpaperCall::Show(path@, r)), ..self.calls@ });
        r
    }

    fn store_dir(&mut self) -> (r: String)
        ensures
            final(self).calls() == after_store(old(self).calls(), WallpaperStoreCall::Dir(r)),
    {
        let r = self.store.dir();
        self.calls = Ghost(after_store(self.calls@, WallpaperStoreCall::Dir(r)));
        r
    }

    fn store_list(&mut self) -> (r: Result<Vec<String>, Error>)
        ensures
            final(self).calls() == after_store(old(self).calls(), WallpaperStoreCall::List(r)),
    {
        let r = self.store.list();
        self.calls = Ghost(after_store(self.calls@, WallpaperStoreCall::List(r)));
        r
    }

    fn store_contains(&mut self, name: &str) -> (r: bool)
        ensures
            final(self).calls() == after_store(old(self).calls(), WallpaperStoreCall::Contains(name@, r)),
    {
        let r = self.store.contains(name);
        self.calls = Ghost(after_store(self.calls@, WallpaperStoreCall::Contains(name@, r)));
        r
    }

    fn store_current(&mut self) -> (r: Option<String>)
        ensures
            final(self).calls() == after_store(old(self).calls(), WallpaperStoreCall::Current(r)),
    {
        let r = self.store.current();
        self.calls = Ghost(after_store(self.calls@, WallpaperStoreCall::Current(r)));
        r
    }

    fn store_has_current(&mut self) -> (r: bool)
        ensures
            final(self).calls() == after_store(old(self).calls(), WallpaperStoreCall::HasCurrent(r)),
    {
        let r = self.store.has_current();
        self.calls = Ghost(after_store(self.calls@, WallpaperStoreCall::HasCurrent(r)));
        r
    }

    fn store_point_current_at(&mut self, name: &str) -> (r: Result<String, Error>)
        ensures
            final(self).calls() == after_store(
                old(self).calls(),
                WallpaperStoreCall::PointCurrentAt(name@, r),
            ),
    {
        let r = self.store.point_current_at(name);
        self.calls = Ghost(after_store(self.calls@, WallpaperStoreCall::PointCurrentAt(name@, r)));
        r
    }

    fn store_load_preferred(&mut self) -> (r: Option<String>)
        ensures
            final(self).calls() == after_store(old(self).calls(), WallpaperStoreCall::LoadPreferred(r)),
    {
        let r = self.store.load_preferred();
        self.calls = Ghost(after_store(self.calls@, WallpaperStoreCall::LoadPreferred(r)));
        r
    }

    fn store_save_preferred(&mut self, name: &str) -> (r: Result<(), Error>)
        ensures
            final(self).calls() == after_store(
                old(self).calls(),
                WallpaperStoreCall::SavePreferred(name@, r),
            ),
    {
        let r = self.store.save_preferred(name);
        self.calls = Ghost(after_store(self.calls@, WallpaperStoreCall::SavePreferred(name@, r)));
        r
    }

    fn store_forget_preferred(&mut self)
        ensures
            final(self).calls() == after_store(old(self).calls(), WallpaperStoreCall::ForgetPreferred),
    {
        self.store.forget_preferred();
        self.calls = Ghost(after_store(self.calls@, WallpaperStoreCall::ForgetPreferred));
    }

    fn theme_get_var(&mut self, key: &str) -> (r: Result<Option<String>, Error>)
        ensures
            final(self).calls() == after_theme(old(self).calls(), ThemeCall::GetVar(key@, r)),
    {
        let r = self.theme.get_var(key);
        self.calls = Ghost(after_theme(self.calls@, ThemeCall::GetVar(key@, r)));
        r
    }

    fn theme_render(&mut self) -> (r: Result<(), Error>)
        ensures
            final(self).calls() == after_theme(old(self).calls(), ThemeCall::Render(r)),
    {
        let r = self.theme.render();
        self.calls = Ghost(after_theme(self.calls@, ThemeCall::Render(r)));
        r
    }

    /// Where the wallpapers are kept, as the collection answers.
    pub fn dir(&mut self) -> (r: String)
        ensures
            final(self).calls() == after_store(old(self).calls(), WallpaperStoreCall::Dir(r)),
    {
        self.store_dir()
    }

    pub fn list(&mut self) -> (r: Result<Vec<String>, Error>)
        ensures
            final(self).calls() == after_store(old(self).calls(), WallpaperStoreCall::List(r)),
    {
        self.store_list()
    }

    pub fn current(&mut self) -> (r: Option<String>)
        ensures
            final(self).calls() == after_store(old(self).calls(), WallpaperStoreCall::Current(r)),
    {
        self.store_current()
    }

    /// Sets the first wallpaper when none is set yet.
    pub fn init(&mut self) -> (r: Result<(), Error>)
        ensures
            initialised(old(self).calls(), final(self).calls(), r),
    {
        let ghost a = self.calls();
        let has = self.store_has_current();
        let ghost m = self.calls();
        assert(m == after_store(a, WallpaperStoreCall::HasCurrent(has)));
        if has {
            return Ok(());
        }
        let listed = self.store_list();
        let ghost m2 = self.calls();
        assert(m2 == after_store(m, WallpaperStoreCall::List(listed)));
        let names = match listed {
            Ok(names) => names,
            Err(e) => return Err(e),
        };
        let ghost all = names@;
        let name = match first_wallpaper(names) {
            Ok(n) => n,
            Err(e) => return Err(Error::User(e)),
        };
        assert(name@ == all[0]@);
        self.set(name.as_str())
    }

    pub fn set(&mut self, name: &str) -> (r: Result<(), Error>)
        ensures
            set_to(old(self).calls(), final(self).calls(), name@, r),
    {
        let shown_r = self.apply(name);
        let ghost mid = self.calls();
        match shown_r {
            Err(e) => Err(e),
            Ok(()) => self.save_preferred(),
        }
    }

    /// The remembered wallpaper, or else the one the desktop theme names.
    pub fn apply_preferred(&mut self) -> (r: Result<(), Error>)
        ensures
            preferred_shown(old(self).calls(), final(self).calls(), r),
    {
        let ghost a = self.calls();
        let p = self.store_load_preferred();
        let ghost m = self.calls();
        assert(m == after_store(a, WallpaperStoreCall::LoadPreferred(p)));
        let name = match p {
            Some(name) => name,
            None => {
                let g = self.theme_get_var("wallpaper");
                assert(self.calls() == after_theme(m, ThemeCall::GetVar("wallpaper"@, g)));
                theme_wallpaper(g?)?
            },
        };
        self.apply(name.as_str())
    }

    /// Remembers the wallpaper in use.
    pub fn save_preferred(&mut self) -> (r: Result<(), Error>)
        ensures
            current_saved(old(self).calls(), final(self).calls(), r),
    {
        let ghost a = self.calls();
        let c = self.store_current();
        let ghost m = self.calls();
        assert(m == after_store(a, WallpaperStoreCall::Current(c)));
        let name = current_wallpaper(c)?;
        let saved = self.store_save_preferred(name.as_str());
        let ghost m2 = self.calls();
        assert(m2 == after_store(m, WallpaperStoreCall::SavePreferred(name@, saved)));
        saved?;
        let r = self.theme_render();
        assert(self.calls() == after_theme(m2, ThemeCall::Render(r)));
        r
    }

    /// Forgets the remembered wallpaper and goes back to the desktop theme's.
    pub fn reset(&mut self) -> (r: Result<(), Error>)
        ensures
            exists|mid: WallpaperCalls, applied: Result<(), Error>|
                #[trigger] preferred_shown(
                    after_store(old(self).calls(), WallpaperStoreCall::ForgetPreferred),
                    mid,
                    applied,
                ) && if applied is Err {
                    final(self).calls() == mid && r == applied
                } else {
                    final(self).calls() == after_theme(mid, ThemeCall::Render(r))
                },
    {
        let ghost a = self.calls();
        self.store_forget_preferred();
        assert(self.calls() == after_store(a, WallpaperStoreCall::ForgetPreferred));
        let applied = self.apply_preferred();
        let ghost mid = self.calls();
        assert(preferred_shown(after_store(a, WallpaperStoreCall::ForgetPreferred), mid, applied));
        match applied {
            Err(e) => Err(e),
            Ok(()) => self.theme_render(),
        }
    }

    fn apply(&mut self, name: &str) -> (r: Result<(), Error>)
        ensures
            shown(old(self).calls(), final(self).calls(), name@, r),
    {
        let ghost a = self.calls();
        let known = self.store_contains(name);
        let ghost m = self.calls();
        assert(m == after_store(a, WallpaperStoreCall::Contains(name@, known)));
        known_wallpaper(known, name)?;
        let pointed = self.store_point_current_at(name);
        let ghost m2 = self.calls();
        assert(m2 == after_store(m, WallpaperStoreCall::PointCurrentAt(name@, pointed)));
        let path = match pointed {
            Ok(path) => path,
            Err(e) => {
                assert(pointed_and_shown(m, self.calls(), name@, Err(e)));
                return Err(e);
            },
        };
        // the compositor's wallpaper daemon preloads the current link on its own startup; the path
        // only tells an already-running one to switch live
        let r = self.backend_apply(path.as_str());
        assert(pointed_and_shown(m, self.calls(), name@, r));
        r
    }
}

} // verus!
