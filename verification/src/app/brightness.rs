//! Screen brightness, through whatever control each screen has.
use vstd::prelude::*;

use crate::sort::strings_view;
use crate::compositor::{description_of, monitors_view, named, CompositorCtl, Monitor, MonitorView};
use crate::error::{Error, UserError};
use crate::notify::{Icon, OsdCtl};
use crate::percent::Percent;
use crate::text::push_str;

verus! {

pub trait BrightnessCtl {
    /// `dirty` returns the last value set instead of confirming it against the monitor.
    fn get(&self, dirty: bool) -> Result<Percent, Error>;

    /// `dirty` fires the write off without waiting for the monitor to confirm it landed.
    fn set(&self, percent: Percent, dirty: bool) -> Result<(), Error>;

    fn step(&self, delta: i64) -> Result<Percent, Error>;

    fn settle(&self) -> Result<(), Error>;
}

pub trait BrightnessSource {
    /// `None` when the screen has no brightness control at all, which is not a failure.
    fn open(&self, name: &str, monitors: &[Monitor]) -> Result<Option<Box<dyn BrightnessCtl>>, Error>;
}

/// The monitors that are switched on, in order.
pub open spec fn lit(ms: Seq<MonitorView>) -> Seq<MonitorView>
    decreases ms.len(),
{
    if ms.len() == 0 {
        Seq::empty()
    } else {
        lit(ms.drop_last()) + if ms.last().disabled {
            Seq::<MonitorView>::empty()
        } else {
            seq![ms.last()]
        }
    }
}

/// A screen that is switched off has no brightness to read or write.
pub fn lit_monitors(monitors: &[Monitor]) -> (r: Vec<Monitor>)
    ensures
        monitors_view(r@) == lit(monitors_view(monitors@)),
{
    let ghost ms = monitors_view(monitors@);
    let mut out: Vec<Monitor> = Vec::new();
    let mut i: usize = 0;
    while i < monitors.len()
        invariant
            i <= monitors.len(),
            ms == monitors_view(monitors@),
            monitors_view(out@) == lit(ms.take(i as int)),
        decreases monitors.len() - i,
    {
        let m = &monitors[i];
        proof {
            assert(ms[i as int] == m@);
            assert(ms.take(i + 1).drop_last() =~= ms.take(i as int));
        }
        let ghost prev = out@;
        if !m.disabled {
            out.push(m.duplicate());
            assert(monitors_view(out@) =~= monitors_view(prev) + seq![ms[i as int]]);
        } else {
            assert(monitors_view(out@) =~= monitors_view(prev));
        }
        i = i + 1;
    }
    assert(ms.take(i as int) =~= ms);
    out
}

/// The names of the monitors whose screen answered with a brightness control, in order.
pub open spec fn controlled(ms: Seq<MonitorView>, has_control: Seq<bool>) -> Seq<Seq<char>>
    decreases ms.len(),
{
    if ms.len() == 0 {
        Seq::empty()
    } else {
        let n = (ms.len() - 1) as int;
        controlled(ms.drop_last(), has_control.take(n)) + if has_control[n] {
            seq![ms.last().name]
        } else {
            Seq::<Seq<char>>::empty()
        }
    }
}


/// Keeps the names of the monitors for which `has_control` holds.
pub fn with_control(monitors: &[Monitor], has_control: &[bool]) -> (r: Vec<String>)
    requires
        has_control@.len() == monitors@.len(),
    ensures
        strings_view(r@) == controlled(monitors_view(monitors@), has_control@),
{
    let ghost ms = monitors_view(monitors@);
    let mut out: Vec<String> = Vec::new();
    let mut i: usize = 0;
    while i < monitors.len()
        invariant
            i <= monitors.len(),
            has_control@.len() == monitors@.len(),
            ms == monitors_view(monitors@),
            strings_view(out@) == controlled(ms.take(i as int), has_control@.take(i as int)),
        decreases monitors.len() - i,
    {
        proof {
            assert(ms.take(i + 1).drop_last() =~= ms.take(i as int));
            assert(has_control@.take(i + 1).take(i as int) =~= has_control@.take(i as int));
            assert(ms.take(i + 1).last() == monitors@[i as int]@);
        }
        let ghost prev = out@;
        if has_control[i] {
            out.push(monitors[i].name.clone());
            assert(strings_view(out@) =~= strings_view(prev) + seq![monitors@[i as int]@.name]);
        } else {
            assert(strings_view(out@) =~= strings_view(prev));
        }
        i = i + 1;
    }
    assert(ms.take(i as int) =~= ms);
    assert(has_control@.take(i as int) =~= has_control@);
    out
}

/// The control a screen answered with, or the failure of a screen that has none.
pub fn required<T>(opened: Option<T>, name: &str) -> (r: Result<T, Error>)
    ensures
        match opened {
            Some(c) => r == Ok::<T, Error>(c),
            None => r matches Err(Error::User(UserError::DdcNotResponding { name: n })) && n@
                == name@,
        },
{
    match opened {
        Some(control) => Ok(control),
        None => {
            let mut n = String::new();
            push_str(&mut n, name);
            Err(Error::User(UserError::DdcNotResponding { name: n }))
        },
    }
}

/// A call a brightness command made on its controls, with what it answered; an opening is
/// recorded with whether the screen answered with a control.
pub enum BrightnessCall {
    Monitors(Result<Vec<Monitor>, Error>),
    Open(Seq<char>, Seq<MonitorView>, Result<bool, Error>),
    Get(bool, Result<Percent, Error>),
    Write(Percent, bool, Result<(), Error>),
    Step(i64, Result<Percent, Error>),
    Settle(Result<(), Error>),
    Progress(Seq<char>, Percent, Result<(), Error>),
}

/// What an opening answered, told by whether a control came with it.
pub open spec fn opening(r: Result<Option<Box<dyn BrightnessCtl>>, Error>) -> Result<bool, Error> {
    match r {
        Ok(Some(_)) => Ok(true),
        Ok(None) => Ok(false),
        Err(e) => Err(e),
    }
}

/// A screen's control opened: the compositor is asked for the monitors, a name no lit monitor
/// has is refused, and otherwise the screen is asked for its control among the lit monitors;
/// `o` is what came of it.
pub open spec fn opened(a: Seq<BrightnessCall>, b: Seq<BrightnessCall>, name: Seq<char>, o: Result<bool, Error>) -> bool {
    exists|res: Result<Vec<Monitor>, Error>|
        #![trigger a.push(BrightnessCall::Monitors(res))]
        match res {
            Err(e) => b == a.push(BrightnessCall::Monitors(res)) && o == Err::<bool, Error>(e),
            Ok(all) => {
                let ls = lit(monitors_view(all@));
                if named(ls, name) is None {
                    &&& b == a.push(BrightnessCall::Monitors(res))
                    &&& o matches Err(Error::User(UserError::UnknownMonitor { name: n }))
                    &&& n@ == name
                } else {
                    b == a.push(BrightnessCall::Monitors(res)).push(BrightnessCall::Open(name, ls, o))
                }
            },
        }
}

/// Listing the screens with a control: the compositor is asked for the monitors, then each lit
/// one's screen for its control, in order; the first failure ends the listing and is the
/// outcome, and otherwise the outcome names the monitors whose screen answered with a control.
pub open spec fn listed(a: Seq<BrightnessCall>, b: Seq<BrightnessCall>, res: Result<Vec<Monitor>, Error>, r: Result<Vec<String>, Error>) -> bool {
    let base = a.len() + 1;
    &&& b.len() >= base
    &&& forall|k: int| 0 <= k < a.len() ==> b[k] == a[k]
    &&& b[a.len() as int] == BrightnessCall::Monitors(res)
    &&& match res {
        Err(e) => b.len() == base && r == Err::<Vec<String>, Error>(e),
        Ok(all) => {
            let ls = lit(monitors_view(all@));
            &&& b.len() - base <= ls.len()
            &&& forall|k: int|
                0 <= k < b.len() - base ==> (#[trigger] b[base + k] matches BrightnessCall::Open(
                    n,
                    m,
                    o,
                ) && n == ls[k].name && m == ls && (k < b.len() - base - 1 || r is Ok ==> o is Ok))
            &&& match r {
                Ok(names) => b.len() - base == ls.len() && strings_view(names@) == controlled(
                    ls,
                    Seq::new(ls.len(), |k: int| b[base + k] matches BrightnessCall::Open(_, _, Ok(true))),
                ),
                Err(e) => b.len() > base && (b.last() matches BrightnessCall::Open(_, _, Err(f)) && f == e),
            }
        },
    }
}

/// A control required: one that is missing is refused as not responding.
pub open spec fn required_from(o: Result<bool, Error>, name: Seq<char>, r: Result<(), Error>) -> bool {
    match o {
        Err(e) => r == Err::<(), Error>(e),
        Ok(false) => r matches Err(Error::User(UserError::DdcNotResponding { name: n })) && n@ == name,
        Ok(true) => true,
    }
}

pub struct Brightness<'a> {
    pub compositor: &'a dyn CompositorCtl,
    pub source: &'a dyn BrightnessSource,
    pub osd: &'a dyn OsdCtl,
    /// Every call this command made on its controls, in order, with what each answered.
    calls: Ghost<Seq<BrightnessCall>>,
}

impl<'a> Brightness<'a> {
    pub fn new(compositor: &'a dyn CompositorCtl, source: &'a dyn BrightnessSource, osd: &'a dyn OsdCtl) -> (b: Self)
        ensures
            b.calls() == Seq::<BrightnessCall>::empty(),
    {
        Brightness { compositor, source, osd, calls: Ghost(Seq::empty()) }
    }
}

impl Brightness<'_> {
    pub closed spec fn calls(&self) -> Seq<BrightnessCall> {
        self.calls@
    }

    fn record(&mut self, Ghost(c): Ghost<BrightnessCall>)
        ensures
            final(self).calls() == old(self).calls().push(c),
    {
        self.calls = Ghost(self.calls@.push(c));
    }

    fn call_monitors(&mut self) -> (r: Result<Vec<Monitor>, Error>)
        ensures
            final(self).calls() == old(self).calls().push(BrightnessCall::Monitors(r)),
    {
        let r = self.compositor.monitors();
        self.record(Ghost(BrightnessCall::Monitors(r)));
        r
    }

    fn call_open(&mut self, name: &str, monitors: &[Monitor]) -> (r: Result<Option<Box<dyn BrightnessCtl>>, Error>)
        ensures
            final(self).calls() == old(self).calls().push(
                BrightnessCall::Open(name@, monitors_view(monitors@), opening(r)),
            ),
    {
        let r = self.source.open(name, monitors);
        self.record(Ghost(BrightnessCall::Open(name@, monitors_view(monitors@), opening(r))));
        r
    }

    fn call_get(&mut self, control: &dyn BrightnessCtl, dirty: bool) -> (r: Result<Percent, Error>)
        ensures
            final(self).calls() == old(self).calls().push(BrightnessCall::Get(dirty, r)),
    {
        let r = control.get(dirty);
        self.record(Ghost(BrightnessCall::Get(dirty, r)));
        r
    }

    fn call_set(&mut self, control: &dyn BrightnessCtl, percent: Percent, dirty: bool) -> (r: Result<(), Error>)
        ensures
            final(self).calls() == old(self).calls().push(BrightnessCall::Write(percent, dirty, r)),
    {
        let r = control.set(percent, dirty);
        self.record(Ghost(BrightnessCall::Write(percent, dirty, r)));
        r
    }

    fn call_step(&mut self, control: &dyn BrightnessCtl, delta: i64) -> (r: Result<Percent, Error>)
        ensures
            final(self).calls() == old(self).calls().push(BrightnessCall::Step(delta, r)),
    {
        let r = control.step(delta);
        self.record(Ghost(BrightnessCall::Step(delta, r)));
        r
    }

    fn call_settle(&mut self, control: &dyn BrightnessCtl) -> (r: Result<(), Error>)
        ensures
            final(self).calls() == old(self).calls().push(BrightnessCall::Settle(r)),
    {
        let r = control.settle();
        self.record(Ghost(BrightnessCall::Settle(r)));
        r
    }

    fn call_progress(&mut self, name: &str, percent: Percent) -> (r: Result<(), Error>)
        ensures
            final(self).calls() == old(self).calls().push(BrightnessCall::Progress(name@, percent, r)),
    {
        let r = self.osd.show_custom_progress(name, percent, Icon::BrightnessSymbolic);
        self.record(Ghost(BrightnessCall::Progress(name@, percent, r)));
        r
    }

    /// `None` when the screen is known but has no brightness control.
    pub fn get(&mut self, name: &str, dirty: bool) -> (r: Result<Option<Percent>, Error>)
        ensures
            exists|mid: Seq<BrightnessCall>, o: Result<bool, Error>|
                #[trigger] opened(old(self).calls(), mid, name@, o) && match o {
                    Err(e) => final(self).calls() == mid && r == Err::<Option<Percent>, Error>(e),
                    Ok(false) => final(self).calls() == mid && r == Ok::<Option<Percent>, Error>(None),
                    Ok(true) => exists|g: Result<Percent, Error>|
                        #[trigger] mid.push(BrightnessCall::Get(dirty, g)) == final(self).calls() && r == match g {
                            Ok(p) => Ok::<Option<Percent>, Error>(Some(p)),
                            Err(e) => Err(e),
                        },
                },
    {
        let ghost a = self.calls();
        let answer = self.open(name);
        let ghost mid = self.calls();
        let ghost o = opening(answer);
        assert(opened(a, mid, name@, o));
        match answer? {
            Some(control) => {
                let g = self.call_get(&*control, dirty);
                assert(mid.push(BrightnessCall::Get(dirty, g)) == self.calls());
                let p = g?;
                Ok(Some(p))
            },
            None => Ok(None),
        }
    }

    pub fn set(&mut self, name: &str, percent: Percent, dirty: bool) -> (r: Result<(), Error>)
        ensures
            exists|mid: Seq<BrightnessCall>, o: Result<bool, Error>|
                #[trigger] opened(old(self).calls(), mid, name@, o) && if o == Ok::<bool, Error>(true) {
                    final(self).calls() == mid.push(BrightnessCall::Write(percent, dirty, r))
                } else {
                    final(self).calls() == mid && required_from(o, name@, r)
                },
    {
        let ghost a = self.calls();
        let answer = self.open(name);
        let ghost mid = self.calls();
        let ghost o = opening(answer);
        assert(opened(a, mid, name@, o));
        let control = required(answer?, name)?;
        self.call_set(&*control, percent, dirty)
    }

    /// Moves the brightness by a step and shows where it landed.
    pub fn step(&mut self, delta_percent: i64, name: &str) -> (r: Result<(), Error>)
        ensures
            exists|mid: Seq<BrightnessCall>, o: Result<bool, Error>|
                #[trigger] opened(old(self).calls(), mid, name@, o) && if o == Ok::<bool, Error>(true) {
                    exists|stepped: Result<Percent, Error>|
                        #![trigger mid.push(BrightnessCall::Step(delta_percent, stepped))]
                        match stepped {
                            Err(e) => final(self).calls() == mid.push(BrightnessCall::Step(delta_percent, stepped))
                                && r == Err::<(), Error>(e),
                            Ok(p) => exists|shown: Result<(), Error>|
                                #![trigger mid.push(BrightnessCall::Step(delta_percent, stepped)).push(BrightnessCall::Progress(name@, p, shown))]
                                {
                                    let m2 = mid.push(BrightnessCall::Step(delta_percent, stepped)).push(
                                        BrightnessCall::Progress(name@, p, shown),
                                    );
                                    if shown is Err {
                                        final(self).calls() == m2 && r == shown
                                    } else {
                                        final(self).calls() == m2.push(BrightnessCall::Settle(r))
                                    }
                                },
                        }
                } else {
                    final(self).calls() == mid && required_from(o, name@, r)
                },
    {
        let ghost a = self.calls();
        let answer = self.open(name);
        let ghost mid = self.calls();
        let ghost o = opening(answer);
        assert(opened(a, mid, name@, o));
        let control = required(answer?, name)?;
        let stepped = self.call_step(&*control, delta_percent);
        let ghost m1 = self.calls();
        assert(m1 == mid.push(BrightnessCall::Step(delta_percent, stepped)));
        let percent = stepped?;
        let shown = self.call_progress(name, percent);
        let ghost m2 = self.calls();
        assert(m2 == mid.push(BrightnessCall::Step(delta_percent, stepped)).push(
            BrightnessCall::Progress(name@, percent, shown),
        ));
        shown?;
        self.call_settle(&*control)
    }

    /// The lit monitors that have a brightness control: each lit monitor's screen is asked for
    /// its control, in order, the first failure ending the listing.
    pub fn monitors(&mut self) -> (r: Result<Vec<String>, Error>)
        ensures
            exists|res: Result<Vec<Monitor>, Error>|
                #[trigger] listed(old(self).calls(), final(self).calls(), res, r),
    {
        let ghost a = self.calls();
        let all = self.call_monitors();
        let ghost res = all;
        let ghost base = a.len() + 1;
        let all = match all {
            Ok(all) => all,
            Err(e) => {
                assert(listed(a, self.calls(), res, Err(e)));
                return Err(e);
            },
        };
        let monitors = lit_monitors(all.as_slice());
        let ghost ls = lit(monitors_view(all@));
        let mut has_control: Vec<bool> = Vec::new();
        let mut i: usize = 0;
        while i < monitors.len()
            invariant
                i <= monitors.len(),
                has_control@.len() == i,
                monitors_view(monitors@) == ls,
                base == a.len() + 1,
                a == old(self).calls(),
                res == Ok::<Vec<Monitor>, Error>(all),
                ls == lit(monitors_view(all@)),
                self.calls().len() == base + i,
                forall|k: int| 0 <= k < a.len() ==> self.calls()[k] == a[k],
                self.calls()[a.len() as int] == BrightnessCall::Monitors(res),
                forall|k: int|
                    0 <= k < i ==> #[trigger] self.calls()[base + k] == BrightnessCall::Open(
                        ls[k].name,
                        ls,
                        Ok(has_control@[k]),
                    ),
            decreases monitors.len() - i,
        {
            let ghost prev = self.calls();
            let opened = self.call_open(monitors[i].name.as_str(), monitors.as_slice());
            assert(monitors_view(monitors@)[i as int] == monitors@[i as int]@);
            let ghost entry = BrightnessCall::Open(ls[i as int].name, ls, opening(opened));
            assert(self.calls() == prev.push(entry));
            assert forall|k: int| 0 <= k < prev.len() implies self.calls()[k] == prev[k] by {
                assert(prev.push(entry)[k] == prev[k]);
            }
            assert(self.calls()[base + i] == entry);
            let opened = match opened {
                Ok(o) => o,
                Err(e) => {
                    assert forall|k: int|
                        0 <= k < self.calls().len() - base implies (#[trigger] self.calls()[base + k] matches BrightnessCall::Open(
                        n,
                        m,
                        o,
                    ) && n == ls[k].name && m == ls && (k < self.calls().len() - base - 1 ==> o is Ok)) by {
                        if k < i {
                            assert(self.calls()[base + k] == prev[base + k]);
                        }
                    }
                    assert(listed(a, self.calls(), res, Err(e)));
                    return Err(e);
                },
            };
            has_control.push(opened.is_some());
            i = i + 1;
        }
        let names = with_control(monitors.as_slice(), has_control.as_slice());
        assert(has_control@ =~= Seq::new(
            ls.len(),
            |k: int| self.calls()[base + k] matches BrightnessCall::Open(_, _, Ok(true)),
        ));
        assert(listed(a, self.calls(), res, Ok(names)));
        Ok(names)
    }

    /// Only screens that are switched on, whatever the compositor reported.
    fn lit(&mut self) -> (r: Result<Vec<Monitor>, Error>)
        ensures
            exists|res: Result<Vec<Monitor>, Error>|
                #![trigger old(self).calls().push(BrightnessCall::Monitors(res))]
                final(self).calls() == old(self).calls().push(BrightnessCall::Monitors(res)) && match res {
                    Err(e) => r == Err::<Vec<Monitor>, Error>(e),
                    Ok(all) => r matches Ok(v) && monitors_view(v@) == lit(monitors_view(all@)),
                },
    {
        let all = self.call_monitors();
        let ghost res = all;
        assert(self.calls() == old(self).calls().push(BrightnessCall::Monitors(res)));
        let all = all?;
        let v = lit_monitors(all.as_slice());
        Ok(v)
    }

    fn open(&mut self, name: &str) -> (r: Result<Option<Box<dyn BrightnessCtl>>, Error>)
        ensures
            opened(old(self).calls(), final(self).calls(), name@, opening(r)),
    {
        let monitors = self.lit()?;
        match description_of(monitors.as_slice(), name) {
            Ok(_) => {},
            Err(e) => return Err(Error::User(e)),
        }
        self.call_open(name, monitors.as_slice())
    }
}

} // verus!
