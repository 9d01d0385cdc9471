//! The pointer theme: applying it, and remembering the one a person chose.
use vstd::prelude::*;

use crate::error::{Error, UserError};
use crate::store::{CursorStore, CursorStoreCall, PreferredCursor};
use crate::text::{parse_int, parse_int_str, push_str};
use crate::theme::{ThemeCall, ThemeCtl};

verus! {

/// A call made on the compositor's cursor, with what it answered, as a command records it.
pub enum CursorCall {
    Apply(Seq<char>, i64, Result<(), Error>),
}

pub trait CursorCtl {
    fn set(&self, name: &str, size: i64) -> Result<(), Error>;
}

/// The size a theme's `cursor-size` asks for.
pub fn cursor_size(value: &str) -> (r: Result<i64, UserError>)
    ensures
        match parse_int(value@) {
            Some(n) => r == Ok::<i64, UserError>(n as i64),
            None => r matches Err(UserError::InvalidThemeValue { key }) && key@ == "cursor-size"@,
        },
{
    match parse_int_str(value) {
        Some(n) => Ok(n),
        None => {
            let mut key = String::new();
            push_str(&mut key, "cursor-size");
            Err(UserError::InvalidThemeValue { key })
        },
    }
}

/// The theme's `cursor-name`, which a theme without one cannot stand in for.
pub fn theme_cursor_name(value: Option<String>) -> (r: Result<String, Error>)
    ensures
        match value {
            Some(n) => r == Ok::<String, Error>(n),
            None => r == Err::<String, Error>(Error::User(UserError::NoPreferredCursor)),
        },
{
    match value {
        Some(n) => Ok(n),
        None => Err(Error::User(UserError::NoPreferredCursor)),
    }
}

/// The size the theme's `cursor-size` asks for, which a theme must give as a number.
pub fn theme_cursor_size(value: Option<String>) -> (r: Result<i64, Error>)
    ensures
        match value {
            Some(v) => match parse_int(v@) {
                Some(n) => r == Ok::<i64, Error>(n as i64),
                None => r matches Err(Error::User(UserError::InvalidThemeValue { key })) && key@
                    == "cursor-size"@,
            },
            None => r == Err::<i64, Error>(Error::User(UserError::NoPreferredCursor)),
        },
{
    match value {
        Some(v) => match cursor_size(v.as_str()) {
            Ok(s) => Ok(s),
            Err(e) => Err(Error::User(e)),
        },
        None => Err(Error::User(UserError::NoPreferredCursor)),
    }
}

/// What setting a cursor reports: a failure to keep the choice comes first, then whether it
/// was applied.
pub open spec fn kept(applied: Result<(), Error>, saved: Result<(), Error>) -> Result<(), Error> {
    match saved {
        Err(e) => Err(e),
        Ok(()) => applied,
    }
}

/// A choice is kept even when applying it failed; a failure to keep it comes first.
pub fn kept_choice(applied: Result<(), Error>, saved: Result<(), Error>) -> (r: Result<(), Error>)
    ensures
        r == kept(applied, saved),
{
    match saved {
        Err(e) => Err(e),
        Ok(()) => applied,
    }
}

/// The calls made so far on the cursor's three controls.
pub struct CursorCalls {
    pub backend: Seq<CursorCall>,
    pub store: Seq<CursorStoreCall>,
    pub theme: Seq<ThemeCall>,
}

/// The calls once one more was made on the backend.
pub open spec fn after_backend(a: CursorCalls, c: CursorCall) -> CursorCalls {
    CursorCalls { backend: a.backend.push(c), ..a }
}

/// The calls once one more was made on the store.
pub open spec fn after_store(a: CursorCalls, c: CursorStoreCall) -> CursorCalls {
    CursorCalls { store: a.store.push(c), ..a }
}

/// The theme's answer to a variable, and the one call that asked for it, appended to `t0`.
pub open spec fn asked_theme(t0: Seq<ThemeCall>, t1: Seq<ThemeCall>, key: Seq<char>) -> bool {
    &&& t1.len() == t0.len() + 1
    &&& t1 == t0.push(t1.last())
    &&& t1.last() matches ThemeCall::GetVar(k, _)
    &&& k == key
}

pub open spec fn theme_answer(t: Seq<ThemeCall>) -> Result<Option<String>, Error> {
    match t.last() {
        ThemeCall::GetVar(_, g) => g,
        ThemeCall::Render(_) => Ok(None),
    }
}

/// Handing a cursor to the backend: one call, whose answer is the outcome `r`.
pub open spec fn handed(a: CursorCalls, b: CursorCalls, name: Seq<char>, size: i64, r: Result<(), Error>) -> bool {
    b.backend == a.backend.push(CursorCall::Apply(name, size, r))
}

/// The theme's cursor applied: `cursor-name` is asked for, then, if the theme names one,
/// `cursor-size`; a missing variable or a size that is not a number is refused before the
/// backend is called, and otherwise the backend is handed that name and size.
pub open spec fn theme_cursor_applied(a: CursorCalls, b: CursorCalls, r: Result<(), Error>) -> bool {
    &&& b.store == a.store
    &&& exists|t: Seq<ThemeCall>| #[trigger] asked_theme(a.theme, t, "cursor-name"@) && match theme_answer(t) {
        Err(e) => b.theme == t && b.backend == a.backend && r == Err::<(), Error>(e),
        Ok(None) => b.theme == t && b.backend == a.backend && r == Err::<(), Error>(
            Error::User(UserError::NoPreferredCursor),
        ),
        Ok(Some(name)) => asked_theme(t, b.theme, "cursor-size"@) && match theme_answer(b.theme) {
            Err(e) => b.backend == a.backend && r == Err::<(), Error>(e),
            Ok(None) => b.backend == a.backend && r == Err::<(), Error>(
                Error::User(UserError::NoPreferredCursor),
            ),
            Ok(Some(v)) => match parse_int(v@) {
                Some(n) => handed(a, b, name@, n as i64, r),
                None => b.backend == a.backend && (r matches Err(
                    Error::User(UserError::InvalidThemeValue { key }),
                ) && key@ == "cursor-size"@),
            },
        },
    }
}

/// The preferred cursor applied: the store is asked for the remembered choice, which is handed
/// to the backend as it is; without one, the theme's cursor is applied. Nothing is written.
pub open spec fn preferred_applied(a: CursorCalls, b: CursorCalls, r: Result<(), Error>) -> bool {
    &&& b.store.len() == a.store.len() + 1
    &&& b.store == a.store.push(b.store.last())
    &&& b.store.last() matches CursorStoreCall::LoadPreferred(p)
    &&& match p {
        Some(c) => b.theme == a.theme && handed(a, b, c.name@, c.size, r),
        None => theme_cursor_applied(CursorCalls { store: b.store, ..a }, b, r),
    }
}

/// A choice saved: the store is asked to keep it, and unless that failed the theme is
/// rendered; the outcome `r` is the first failure, or the rendering's answer.
pub open spec fn choice_saved(a: CursorCalls, b: CursorCalls, name: Seq<char>, size: i64, r: Result<(), Error>) -> bool {
    &&& b.backend == a.backend
    &&& b.store.len() == a.store.len() + 1
    &&& b.store == a.store.push(b.store.last())
    &&& b.store.last() matches CursorStoreCall::SavePreferred(n, z, saved)
    &&& n == name && z == size
    &&& if saved is Err {
        r == saved && b.theme == a.theme
    } else {
        b.theme == a.theme.push(ThemeCall::Render(r))
    }
}

pub struct Cursor<'a> {
    pub backend: &'a dyn CursorCtl,
    pub store: &'a dyn CursorStore,
    pub theme: &'a dyn ThemeCtl,
    /// Every call this command made on its controls, in order, with what each answered.
    calls: Ghost<CursorCalls>,
}

impl<'a> Cursor<'a> {
    pub fn new(backend: &'a dyn CursorCtl, store: &'a dyn CursorStore, theme: &'a dyn ThemeCtl) -> (c: Self)
        ensures
            c.calls() == (CursorCalls { backend: Seq::empty(), store: Seq::empty(), theme: Seq::empty() }),
    {
        Cursor {
            backend,
            store,
            theme,
            calls: Ghost(CursorCalls { backend: Seq::empty(), store: Seq::empty(), theme: Seq::empty() }),
        }
    }
}

impl Cursor<'_> {
    pub closed spec fn calls(&self) -> CursorCalls {
        self.calls@
    }

    fn backend_set(&mut self, name: &str, size: i64) -> (r: Result<(), Error>)
        ensures
            final(self).calls() == after_backend(old(self).calls(), CursorCall::Apply(name@, size, r)),
    {
        let r = self.backend.set(name, size);
        self.calls = Ghost(after_backend(self.calls@, CursorCall::Apply(name@, size, r)));
        r
    }

    fn store_list(&mut self) -> (r: Result<Vec<String>, Error>)
        ensures
            final(self).calls() == after_store(old(self).calls(), CursorStoreCall::List(r)),
    {
        let r = self.store.list();
        self.calls = Ghost(after_store(self.calls@, CursorStoreCall::List(r)));
        r
    }

    fn store_load_preferred(&mut self) -> (r: Option<PreferredCursor>)
        ensures
            final(self).calls() == after_store(old(self).calls(), CursorStoreCall::LoadPreferred(r)),
    {
        let r = self.store.load_preferred();
        self.calls = Ghost(after_store(self.calls@, CursorStoreCall::LoadPreferred(r)));
        r
    }

    fn store_save_preferred(&mut self, name: &str, size: i64) -> (r: Result<(), Error>)
        ensures
            final(self).calls() == after_store(
                old(self).calls(),
                CursorStoreCall::SavePreferred(name@, size, r),
            ),
    {
        let r = self.store.save_preferred(name, size);
        self.calls = Ghost(after_store(self.calls@, CursorStoreCall::SavePreferred(name@, size, r)));
        r
    }

    fn store_forget_preferred(&mut self)
        ensures
            final(self).calls() == after_store(old(self).calls(), CursorStoreCall::ForgetPreferred),
    {
        self.store.forget_preferred();
        self.calls = Ghost(after_store(self.calls@, CursorStoreCall::ForgetPreferred));
    }

    fn theme_get_var(&mut self, key: &str) -> (r: Result<Option<String>, Error>)
        ensures
            final(self).calls() == (CursorCalls {
                theme: old(self).calls().theme.push(ThemeCall::GetVar(key@, r)),
                ..old(self).calls()
            }),
    {
        let r = self.theme.get_var(key);
        self.calls = Ghost(CursorCalls { theme: self.calls@.theme.push(ThemeCall::GetVar(key@, r)), ..self.calls@ });
        r
    }

    fn theme_render(&mut self) -> (r: Result<(), Error>)
        ensures
            final(self).calls() == (CursorCalls {
                theme: old(self).calls().theme.push(ThemeCall::Render(r)),
                ..old(self).calls()
            }),
    {
        let r = self.theme.render();
        self.calls = Ghost(CursorCalls { theme: self.calls@.theme.push(ThemeCall::Render(r)), ..self.calls@ });
        r
    }

    /// The cursor themes installed, as the store lists them.
    pub fn list(&mut self) -> (r: Result<Vec<String>, Error>)
        ensures
            final(self).calls() == after_store(old(self).calls(), CursorStoreCall::List(r)),
    {
        self.store_list()
    }

    /// Applies a theme and remembers it, even when the compositor did not take it: the choice is
    /// still the person's.
    pub fn set(&mut self, name: &str, size: i64) -> (r: Result<(), Error>)
        ensures
            exists|applied: Result<(), Error>, saved: Result<(), Error>|
                #[trigger] choice_saved(
                    after_backend(old(self).calls(), CursorCall::Apply(name@, size, applied)),
                    final(self).calls(),
                    name@,
                    size,
                    saved,
                ) && r == kept(applied, saved),
    {
        let ghost a = self.calls();
        let applied = self.backend_set(name, size);
        assert(self.calls() == after_backend(a, CursorCall::Apply(name@, size, applied)));
        let saved = self.save_preferred(name, size);
        assert(choice_saved(
            after_backend(a, CursorCall::Apply(name@, size, applied)),
            self.calls(),
            name@,
            size,
            saved,
        ));
        kept_choice(applied, saved)
    }

    /// The remembered theme, or else the one the desktop theme names.
    pub fn apply_preferred(&mut self) -> (r: Result<(), Error>)
        ensures
            preferred_applied(old(self).calls(), final(self).calls(), r),
    {
        let ghost a = self.calls();
        let (name, size) = match self.store_load_preferred() {
            Some(preferred) => (preferred.name, preferred.size),
            None => {
                let ghost a1 = self.calls();
                let n = self.theme_get_var("cursor-name");
                let ghost t = self.calls().theme;
                assert(asked_theme(a1.theme, t, "cursor-name"@));
                let name = theme_cursor_name(n?)?;
                let v = self.theme_get_var("cursor-size");
                assert(asked_theme(t, self.calls().theme, "cursor-size"@));
                let size = theme_cursor_size(v?)?;
                (name, size)
            },
        };
        self.backend_set(name.as_str(), size)
    }

    pub fn save_preferred(&mut self, name: &str, size: i64) -> (r: Result<(), Error>)
        ensures
            choice_saved(old(self).calls(), final(self).calls(), name@, size, r),
    {
        self.store_save_preferred(name, size)?;
        self.theme_render()
    }

    /// Forgets the remembered theme and goes back to the desktop theme's.
    pub fn reset(&mut self) -> (r: Result<(), Error>)
        ensures
            exists|mid: CursorCalls, applied: Result<(), Error>|
                #[trigger] preferred_applied(
                    after_store(old(self).calls(), CursorStoreCall::ForgetPreferred),
                    mid,
                    applied,
                ) && if applied is Err {
                    r == applied && final(self).calls() == mid
                } else {
                    final(self).calls() == (CursorCalls {
                        theme: mid.theme.push(ThemeCall::Render(r)),
                        ..mid
                    })
                },
    {
        let ghost a = self.calls();
        self.store_forget_preferred();
        assert(self.calls() == after_store(a, CursorStoreCall::ForgetPreferred));
        let applied = self.apply_preferred();
        let ghost mid = self.calls();
        assert(preferred_applied(after_store(a, CursorStoreCall::ForgetPreferred), mid, applied));
        match applied {
            Err(e) => Err(e),
            Ok(()) => self.theme_render(),
        }
    }
}

} // verus!
