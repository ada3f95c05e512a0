//! What the window knows and how it moves on: the chosen archive and options,
//! the log, and the phases of a conversion. Showing it, and doing the work, is
//! left to the program.

use crate::fittings::{interior_views, InteriorDef, InteriorView};
use crate::pipeline::{below, join_path, Options};
use crate::text::{
    cat3, chars_of, decimal, equals, halves, lines, opt_text, split_lines, split_once, texts,
    trim, trimmed, write_usize,
};
use crate::vehicle::{vehicle_views, VehicleDef, VehicleView};
use vstd::prelude::*;

verus! {

#[derive(Clone, Copy, PartialEq, Eq, Structural)]
pub enum Phase {
    Idle,
    Scanning,
    Converting,
    Finished,
}

/// How a line of the log is shown.
#[derive(Clone, Copy, PartialEq, Eq, Structural)]
pub enum Tone {
    Step,
    Info,
    Warn,
    Error,
    Success,
}

/// News from the work that is being done.
pub enum Msg {
    Step(String),
    Info(String),
    Warn(String),
    Error(String),
    Done(Vec<String>),
}

pub enum MsgView {
    Step(Seq<char>),
    Info(Seq<char>),
    Warn(Seq<char>),
    Error(Seq<char>),
    Done(Seq<Seq<char>>),
}

impl View for Msg {
    type V = MsgView;

    open spec fn view(&self) -> MsgView {
        match self {
            Msg::Step(s) => MsgView::Step(s@),
            Msg::Info(s) => MsgView::Info(s@),
            Msg::Warn(s) => MsgView::Warn(s@),
            Msg::Error(s) => MsgView::Error(s@),
            Msg::Done(v) => MsgView::Done(texts(v@)),
        }
    }
}

/// The switches that are remembered from one run to the next.
#[derive(Clone, Copy, PartialEq, Eq, Structural)]
pub struct Settings {
    pub variants_row: bool,
    pub sounds: bool,
    pub skip_existing: bool,
    pub cleanup: bool,
    pub show_advanced: bool,
}

// ------------------------------------------------------------- settings ---

/// Settings with one line of a settings file taken over. Lines that say nothing
/// known are passed over.
pub open spec fn with_line(s: Settings, line: Seq<char>) -> Settings {
    match halves(line, '=') {
        None => s,
        Some(h) => {
            let on = h.1 == "1"@;
            let k = trimmed(h.0);
            if k == "variants_row"@ {
                Settings { variants_row: on, ..s }
            } else if k == "sounds"@ {
                Settings { sounds: on, ..s }
            } else if k == "skip_existing"@ {
                Settings { skip_existing: on, ..s }
            } else if k == "cleanup"@ {
                Settings { cleanup: on, ..s }
            } else if k == "show_advanced"@ {
                Settings { show_advanced: on, ..s }
            } else {
                s
            }
        },
    }
}

pub open spec fn with_lines(s: Settings, ls: Seq<Seq<char>>) -> Settings
    decreases ls.len(),
{
    if ls.len() == 0 {
        s
    } else {
        with_line(with_lines(s, ls.drop_last()), ls.last())
    }
}

pub open spec fn bit(b: bool) -> Seq<char> {
    if b {
        "1"@
    } else {
        "0"@
    }
}

fn bit_text(b: bool) -> (r: &'static str)
    ensures
        r@ == bit(b),
{
    if b {
        "1"
    } else {
        "0"
    }
}

/// The settings file.
pub open spec fn settings_file(s: Settings) -> Seq<char> {
    "variants_row="@ + bit(s.variants_row) + "\nsounds="@ + bit(s.sounds) + "\nskip_existing="@
        + bit(s.skip_existing) + "\ncleanup="@ + bit(s.cleanup) + "\nshow_advanced="@ + bit(
        s.show_advanced,
    ) + "\n"@
}

impl Settings {
    pub fn new() -> (r: Settings)
        ensures
            r == (Settings {
                variants_row: true,
                sounds: false,
                skip_existing: true,
                cleanup: true,
                show_advanced: false,
            }),
    {
        Settings {
            variants_row: true,
            sounds: false,
            skip_existing: true,
            cleanup: true,
            show_advanced: false,
        }
    }

    fn take_line(&mut self, line: &[char])
        ensures
            *final(self) == with_line(*old(self), line@),
    {
        match split_once(line, '=') {
            None => {},
            Some(h) => {
                let on = equals(h.1, "1");
                let k = trim(h.0);
                if equals(k, "variants_row") {
                    self.variants_row = on;
                } else if equals(k, "sounds") {
                    self.sounds = on;
                } else if equals(k, "skip_existing") {
                    self.skip_existing = on;
                } else if equals(k, "cleanup") {
                    self.cleanup = on;
                } else if equals(k, "show_advanced") {
                    self.show_advanced = on;
                }
            },
        }
    }

    /// Takes the settings over that a settings file holds.
    pub fn load(&mut self, text: &str)
        ensures
            *final(self) == with_lines(*old(self), lines(text@)),
    {
        let c = chars_of(text);
        let ls = split_lines(c.as_slice());
        let ghost all = lines(text@);
        let ghost start = *self;
        let mut i: usize = 0;
        assert(all.take(0) =~= Seq::<Seq<char>>::empty());
        while i < ls.len()
            invariant
                i <= ls@.len(),
                crate::text::parts(ls@) == all,
                *self == with_lines(start, all.take(i as int)),
            decreases ls@.len() - i,
        {
            assert(all.take(i + 1).drop_last() =~= all.take(i as int));
            assert(all[i as int] == ls@[i as int]@);
            self.take_line(ls[i]);
            i = i + 1;
        }
        assert(all.take(i as int) =~= all);
    }

    /// The text of a settings file.
    pub fn save(&self) -> (r: String)
        ensures
            r@ == settings_file(*self),
    {
        let a = cat3("variants_row=", bit_text(self.variants_row), "\nsounds=");
        let b = cat3(a.as_str(), bit_text(self.sounds), "\nskip_existing=");
        let c = cat3(b.as_str(), bit_text(self.skip_existing), "\ncleanup=");
        let d = cat3(c.as_str(), bit_text(self.cleanup), "\nshow_advanced=");
        cat3(d.as_str(), bit_text(self.show_advanced), "\n")
    }
}

// -------------------------------------------------------------- session ---

#[verifier::ext_equal]
pub struct SessionView {
    pub archive: Option<Seq<char>>,
    pub outdir: Option<Seq<char>>,
    pub vehicles: Seq<VehicleView>,
    pub vehicle: usize,
    pub cabin: usize,
    pub chassis: usize,
    pub interiors: Seq<Seq<char>>,
    pub interior: usize,
    pub settings: Settings,
    pub auto_continue: bool,
    pub show_log: bool,
    pub phase: Phase,
    pub step: Seq<char>,
    pub log: Seq<(Tone, Seq<char>)>,
    pub warnings: usize,
    pub outputs: Seq<Seq<char>>,
}

pub struct Session {
    pub archive: Option<String>,
    pub outdir: Option<String>,
    pub vehicles: Vec<VehicleDef>,
    pub vehicle: usize,
    pub cabin: usize,
    pub chassis: usize,
    pub interiors: Vec<String>,
    pub interior: usize,
    pub settings: Settings,
    /// Pressing Convert on a fresh archive scans first and then keeps going, so
    /// the common case is one click rather than two.
    pub auto_continue: bool,
    pub show_log: bool,
    pub phase: Phase,
    pub step: String,
    pub log: Vec<(Tone, String)>,
    pub warnings: usize,
    pub outputs: Vec<String>,
}

pub open spec fn log_views(v: Seq<(Tone, String)>) -> Seq<(Tone, Seq<char>)> {
    Seq::new(v.len(), |i: int| (v[i].0, v[i].1@))
}

impl View for Session {
    type V = SessionView;

    open spec fn view(&self) -> SessionView {
        SessionView {
            archive: opt_text(self.archive),
            outdir: opt_text(self.outdir),
            vehicles: vehicle_views(self.vehicles@),
            vehicle: self.vehicle,
            cabin: self.cabin,
            chassis: self.chassis,
            interiors: texts(self.interiors@),
            interior: self.interior,
            settings: self.settings,
            auto_continue: self.auto_continue,
            show_log: self.show_log,
            phase: self.phase,
            step: self.step@,
            log: log_views(self.log@),
            warnings: self.warnings,
            outputs: texts(self.outputs@),
        }
    }
}

/// What is to be done next.
pub enum Action {
    Nothing,
    /// unpack an archive into a folder
    Scan { archive: String, outdir: String },
    Convert(Options),
}

pub enum ActionView {
    Nothing,
    Scan { archive: Seq<char>, outdir: Seq<char> },
    Convert(OptionsView),
}

#[verifier::ext_equal]
pub struct OptionsView {
    pub archive: Seq<char>,
    pub outdir: Seq<char>,
    pub converter_pix: Seq<char>,
    pub vehicle: Seq<char>,
    pub cabin: Seq<char>,
    pub chassis: Seq<char>,
    pub interior_variant: Seq<char>,
    pub variants_row: bool,
    pub sounds: bool,
    pub skip_existing: bool,
    pub cleanup: bool,
}

pub open spec fn options_view(o: Options) -> OptionsView {
    OptionsView {
        archive: o.archive@,
        outdir: o.outdir@,
        converter_pix: o.converter_pix@,
        vehicle: o.vehicle@,
        cabin: o.cabin@,
        chassis: o.chassis@,
        interior_variant: o.interior_variant@,
        variants_row: o.variants_row,
        sounds: o.sounds,
        skip_existing: o.skip_existing,
        cleanup: o.cleanup,
    }
}

pub open spec fn action_view(a: Action) -> ActionView {
    match a {
        Action::Nothing => ActionView::Nothing,
        Action::Scan { archive, outdir } => ActionView::Scan {
            archive: archive@,
            outdir: outdir@,
        },
        Action::Convert(o) => ActionView::Convert(options_view(o)),
    }
}

/// The text with a number in a list; none where the list ends before.
pub open spec fn text_at(v: Seq<Seq<char>>, i: usize) -> Seq<char> {
    if i < v.len() {
        v[i as int]
    } else {
        Seq::empty()
    }
}

fn pick(v: &Vec<String>, i: usize) -> (r: String)
    ensures
        r@ == text_at(texts(v@), i),
{
    if i < v.len() {
        v[i].as_str().to_owned()
    } else {
        let r = String::new();
        assert(r@ =~= Seq::<char>::empty());
        r
    }
}

impl SessionView {
    pub open spec fn saying(self, tone: Tone, s: Seq<char>) -> SessionView {
        SessionView { log: kept(self.log.push((tone, s))), ..self }
    }

    /// Takes an archive: nothing of the last one is kept. What comes out goes to a
    /// folder beside the archive, named after it.
    pub open spec fn with_archive(
        self,
        path: Seq<char>,
        folder: Option<Seq<char>>,
        stem: Option<Seq<char>>,
    ) -> SessionView {
        SessionView {
            archive: Some(path),
            outdir: match folder {
                Some(d) => Some(
                    below(
                        d,
                        match stem {
                            Some(s) => s,
                            None => "scs2fbx_out"@,
                        },
                    ),
                ),
                None => None,
            },
            vehicles: Seq::empty(),
            interiors: Seq::empty(),
            outputs: Seq::empty(),
            log: Seq::empty(),
            warnings: 0,
            phase: Phase::Idle,
            ..self
        }
    }

    /// What a conversion would be asked for, if there is a vehicle to convert.
    pub open spec fn options(self) -> Option<OptionsView> {
        if self.vehicle < self.vehicles.len() && self.archive is Some && self.outdir is Some {
            let v = self.vehicles[self.vehicle as int];
            Some(
                OptionsView {
                    archive: self.archive->0,
                    outdir: self.outdir->0,
                    converter_pix: Seq::empty(),
                    vehicle: v.name,
                    cabin: text_at(v.cabins, self.cabin),
                    chassis: text_at(v.chassis, self.chassis),
                    interior_variant: text_at(self.interiors, self.interior),
                    variants_row: self.settings.variants_row,
                    sounds: self.settings.sounds,
                    skip_existing: self.settings.skip_existing,
                    cleanup: self.settings.cleanup,
                },
            )
        } else {
            None
        }
    }

    pub open spec fn scanning(self) -> (SessionView, ActionView) {
        if self.archive is Some && self.outdir is Some {
            (
                SessionView { phase: Phase::Scanning, warnings: 0, ..self },
                ActionView::Scan { archive: self.archive->0, outdir: self.outdir->0 },
            )
        } else {
            (self, ActionView::Nothing)
        }
    }

    pub open spec fn converting(self) -> (SessionView, ActionView) {
        match self.options() {
            Some(o) => (
                SessionView { phase: Phase::Converting, outputs: Seq::empty(), ..self },
                ActionView::Convert(o),
            ),
            None => (self, ActionView::Nothing),
        }
    }

    /// What pressing the button does: a fresh archive is scanned first.
    pub open spec fn going(self) -> (SessionView, ActionView) {
        if self.vehicles.len() == 0 {
            (SessionView { auto_continue: true, log: Seq::empty(), ..self }).scanning()
        } else {
            self.converting()
        }
    }

    pub open spec fn after(self, m: MsgView) -> SessionView {
        match m {
            MsgView::Step(s) => (SessionView { step: s, ..self }).saying(Tone::Step, s),
            MsgView::Info(s) => self.saying(Tone::Info, s),
            MsgView::Warn(s) => (SessionView {
                warnings: crate::scene::capped(self.warnings + 1),
                ..self
            }).saying(Tone::Warn, s),
            MsgView::Error(s) => SessionView {
                step: "Failed"@,
                phase: Phase::Idle,
                auto_continue: false,
                show_log: true,
                ..self.saying(Tone::Error, s)
            },
            MsgView::Done(v) => SessionView {
                outputs: v,
                phase: Phase::Finished,
                step: "Done"@,
                ..self
            },
        }
    }

    /// Takes over what a scan found: the first vehicle is chosen, with its first
    /// cabin, chassis and interior. Where the button was pressed, it goes on from
    /// here by itself.
    pub open spec fn scanned(
        self,
        vehicles: Seq<VehicleView>,
        interiors: Seq<InteriorView>,
    ) -> (SessionView, ActionView) {
        let n = vehicles.len();
        let s = (SessionView {
            vehicles,
            vehicle: 0,
            cabin: 0,
            chassis: 0,
            interiors: interior_names(interiors),
            interior: 0,
            phase: Phase::Idle,
            ..self
        }).saying(Tone::Success, "found "@ + decimal(n) + " vehicle definition(s)"@);
        if n == 0 {
            (
                (SessionView { auto_continue: false, ..s }).saying(
                    Tone::Error,
                    "no truck definition in this archive - it may be a map, sound or trailer mod"@,
                ),
                ActionView::Nothing,
            )
        } else if s.auto_continue {
            (SessionView { auto_continue: false, ..s }).converting()
        } else {
            (s, ActionView::Nothing)
        }
    }
}

/// A log of no more than eight hundred lines: when there is one too many, the
/// oldest two hundred go.
pub open spec fn kept(log: Seq<(Tone, Seq<char>)>) -> Seq<(Tone, Seq<char>)> {
    if log.len() > 800 {
        log.skip(200)
    } else {
        log
    }
}

/// Interiors go by their variant, or by their file where they have none.
pub open spec fn interior_names(v: Seq<InteriorView>) -> Seq<Seq<char>> {
    Seq::new(
        v.len(),
        |i: int|
            if v[i].variant.len() == 0 {
                v[i].stem
            } else {
                v[i].variant
            },
    )
}

fn name_interiors(v: &Vec<InteriorDef>) -> (r: Vec<String>)
    ensures
        texts(r@) == interior_names(interior_views(v@)),
{
    let mut r: Vec<String> = Vec::new();
    let ghost want = interior_names(interior_views(v@));
    let mut i: usize = 0;
    while i < v.len()
        invariant
            i <= v@.len(),
            want == interior_names(interior_views(v@)),
            texts(r@) =~= want.take(i as int),
        decreases v@.len() - i,
    {
        let ghost before = texts(r@);
        assert(interior_views(v@)[i as int] == v@[i as int]@);
        let s = if v[i].variant.as_str().is_empty() {
            v[i].stem.as_str().to_owned()
        } else {
            v[i].variant.as_str().to_owned()
        };
        let ghost sv = s@;
        r.push(s);
        assert(texts(r@) =~= before.push(sv));
        i = i + 1;
    }
    assert(want.take(i as int) =~= want);
    r
}

impl Session {
    pub fn new(settings: Settings) -> (r: Session)
        ensures
            r@ == (SessionView {
                archive: None,
                outdir: None,
                vehicles: Seq::empty(),
                vehicle: 0,
                cabin: 0,
                chassis: 0,
                interiors: Seq::empty(),
                interior: 0,
                settings,
                auto_continue: false,
                show_log: false,
                phase: Phase::Idle,
                step: Seq::empty(),
                log: Seq::empty(),
                warnings: 0,
                outputs: Seq::empty(),
            }),
    {
        let r = Session {
            archive: None,
            outdir: None,
            vehicles: Vec::new(),
            vehicle: 0,
            cabin: 0,
            chassis: 0,
            interiors: Vec::new(),
            interior: 0,
            settings,
            auto_continue: false,
            show_log: false,
            phase: Phase::Idle,
            step: String::new(),
            log: Vec::new(),
            warnings: 0,
            outputs: Vec::new(),
        };
        assert(r@.vehicles =~= Seq::<VehicleView>::empty());
        assert(r@.interiors =~= Seq::<Seq<char>>::empty());
        assert(r@.step =~= Seq::<char>::empty());
        assert(r@.log =~= Seq::<(Tone, Seq<char>)>::empty());
        assert(r@.outputs =~= Seq::<Seq<char>>::empty());
        r
    }

    /// Adds a line to the log.
    pub fn push(&mut self, tone: Tone, s: String)
        ensures
            final(self)@ == old(self)@.saying(tone, s@),
    {
        let ghost was = self@;
        self.log.push((tone, s));
        assert(log_views(self.log@) =~= was.log.push((tone, s@)));
        if self.log.len() > 800 {
            let ghost full = self.log@;
            let tail = self.log.split_off(200);
            self.log = tail;
            assert(log_views(self.log@) =~= log_views(full).skip(200));
        }
        assert(self@ =~= was.saying(tone, s@));
    }

    pub fn set_archive(&mut self, path: &str, folder: Option<&str>, stem: Option<&str>)
        ensures
            final(self)@ == old(self)@.with_archive(
                path@,
                crate::text::opt_str(folder),
                crate::text::opt_str(stem),
            ),
    {
        let ghost was = self@;
        self.outdir = match folder {
            Some(d) => {
                let name = match stem {
                    Some(s) => s.to_owned(),
                    None => "scs2fbx_out".to_owned(),
                };
                Some(join_path(d, name.as_str()))
            },
            None => None,
        };
        self.archive = Some(path.to_owned());
        self.vehicles = Vec::new();
        self.interiors = Vec::new();
        self.outputs = Vec::new();
        self.log = Vec::new();
        self.warnings = 0;
        self.phase = Phase::Idle;
        assert(self@ =~= was.with_archive(
            path@,
            crate::text::opt_str(folder),
            crate::text::opt_str(stem),
        ));
    }

    pub fn options(&self) -> (r: Option<Options>)
        ensures
            match r {
                Some(o) => self@.options() == Some(options_view(o)),
                None => self@.options() is None,
            },
    {
        if self.vehicle >= self.vehicles.len() {
            return None;
        }
        let v = &self.vehicles[self.vehicle];
        assert(self@.vehicles[self.vehicle as int] == v@);
        match (&self.archive, &self.outdir) {
            (Some(a), Some(o)) => {
                let none = String::new();
                assert(none@ =~= Seq::<char>::empty());
                Some(
                    Options {
                        archive: a.as_str().to_owned(),
                        outdir: o.as_str().to_owned(),
                        converter_pix: none,
                        vehicle: v.name.as_str().to_owned(),
                        cabin: pick(&v.cabins, self.cabin),
                        chassis: pick(&v.chassis, self.chassis),
                        interior_variant: pick(&self.interiors, self.interior),
                        variants_row: self.settings.variants_row,
                        sounds: self.settings.sounds,
                        skip_existing: self.settings.skip_existing,
                        cleanup: self.settings.cleanup,
                    },
                )
            },
            _ => None,
        }
    }

    pub fn start_scan(&mut self) -> (r: Action)
        ensures
            (final(self)@, action_view(r)) == old(self)@.scanning(),
    {
        let ghost was = self@;
        match (&self.archive, &self.outdir) {
            (Some(a), Some(o)) => {
                let r = Action::Scan {
                    archive: a.as_str().to_owned(),
                    outdir: o.as_str().to_owned(),
                };
                self.phase = Phase::Scanning;
                self.warnings = 0;
                assert(self@ =~= was.scanning().0);
                r
            },
            _ => Action::Nothing,
        }
    }

    pub fn start_convert(&mut self) -> (r: Action)
        ensures
            (final(self)@, action_view(r)) == old(self)@.converting(),
    {
        let ghost was = self@;
        match self.options() {
            Some(o) => {
                self.phase = Phase::Converting;
                self.outputs = Vec::new();
                assert(self@ =~= was.converting().0);
                Action::Convert(o)
            },
            None => Action::Nothing,
        }
    }

    /// The button was pressed.
    pub fn go(&mut self) -> (r: Action)
        ensures
            (final(self)@, action_view(r)) == old(self)@.going(),
    {
        let ghost was = self@;
        if self.vehicles.len() == 0 {
            self.auto_continue = true;
            self.log = Vec::new();
            assert(self@ =~= (SessionView { auto_continue: true, log: Seq::empty(), ..was }));
            self.start_scan()
        } else {
            self.start_convert()
        }
    }

    /// Takes in a piece of news.
    pub fn receive(&mut self, m: Msg)
        ensures
            final(self)@ == old(self)@.after(m@),
    {
        let ghost was = self@;
        match m {
            Msg::Step(s) => {
                self.step = s.as_str().to_owned();
                assert(self@ =~= (SessionView { step: s@, ..was }));
                self.push(Tone::Step, s);
            },
            Msg::Info(s) => {
                self.push(Tone::Info, s);
            },
            Msg::Warn(s) => {
                self.warnings = crate::scene::add_capped(self.warnings, 1);
                assert(self@ =~= (SessionView {
                    warnings: crate::scene::capped(was.warnings + 1),
                    ..was
                }));
                self.push(Tone::Warn, s);
            },
            Msg::Error(s) => {
                self.push(Tone::Error, s);
                self.step = "Failed".to_owned();
                self.phase = Phase::Idle;
                self.auto_continue = false;
                self.show_log = true;
                assert(self@ =~= was.after(MsgView::Error(s@)));
            },
            Msg::Done(v) => {
                let ghost vv = texts(v@);
                self.outputs = v;
                self.phase = Phase::Finished;
                self.step = "Done".to_owned();
                assert(self@ =~= was.after(MsgView::Done(vv)));
            },
        }
    }

    /// Takes over the vehicles that a scan found, and the interiors of the first.
    pub fn scanned(&mut self, vehicles: Vec<VehicleDef>, interiors: &Vec<InteriorDef>) -> (r: Action)
        ensures
            (final(self)@, action_view(r)) == old(self)@.scanned(
                vehicle_views(vehicles@),
                interior_views(interiors@),
            ),
    {
        let ghost was = self@;
        let ghost vv = vehicle_views(vehicles@);
        let n: usize = vehicles.len();
        self.vehicles = vehicles;
        self.vehicle = 0;
        self.cabin = 0;
        self.chassis = 0;
        self.interiors = name_interiors(interiors);
        self.interior = 0;
        self.phase = Phase::Idle;
        assert(self@ =~= (SessionView {
            vehicles: vv,
            vehicle: 0,
            cabin: 0,
            chassis: 0,
            interiors: interior_names(interior_views(interiors@)),
            interior: 0,
            phase: Phase::Idle,
            ..was
        }));
        self.push(
            Tone::Success,
            cat3("found ", write_usize(n).as_str(), " vehicle definition(s)"),
        );
        let ghost s = self@;
        if n == 0 {
            self.auto_continue = false;
            assert(self@ =~= (SessionView { auto_continue: false, ..s }));
            self.push(
                Tone::Error,
                "no truck definition in this archive - it may be a map, sound or trailer mod".to_owned(),
            );
            Action::Nothing
        } else if self.auto_continue {
            self.auto_continue = false;
            assert(self@ =~= (SessionView { auto_continue: false, ..s }));
            self.start_convert()
        } else {
            Action::Nothing
        }
    }
}

/// The log never grows beyond eight hundred lines.
pub proof fn the_log_stays_short(s: SessionView, m: MsgView)
    requires
        s.log.len() <= 800,
    ensures
        s.after(m).log.len() <= 800,
{
}

/// Pressing the button on a fresh archive that holds a vehicle leads through the
/// scan to the conversion, without pressing it again.
pub proof fn one_click_is_enough(
    s: SessionView,
    vehicles: Seq<VehicleView>,
    interiors: Seq<InteriorView>,
)
    requires
        s.vehicles.len() == 0,
        s.archive is Some,
        s.outdir is Some,
        vehicles.len() > 0,
    ensures
        s.going().1 is Scan,
        s.going().0.scanned(vehicles, interiors).1 is Convert,
        s.going().0.scanned(vehicles, interiors).0.phase == Phase::Converting,
{
}

/// A line of the settings file.
spec fn setting(key: Seq<char>, b: bool) -> Seq<char> {
    key.push('=') + bit(b)
}

proof fn lemma_setting(key: Seq<char>, b: bool)
    requires
        key.len() > 0,
        !key.contains('='),
        !key.contains('\n'),
        !crate::text::space(key[0]),
        !crate::text::space(key.last()),
    ensures
        halves(setting(key, b), '=') == Some((key, bit(b))),
        trimmed(key) == key,
        (bit(b) == "1"@) == b,
        !setting(key, b).contains('\n'),
        setting(key, b).len() > 0,
        setting(key, b).last() != '\r',
{
    reveal_strlit("1");
    reveal_strlit("0");
    crate::text::lemma_halves_around(key, bit(b), '=');
    assert("0"@[0] != "1"@[0]);
    let s = setting(key, b);
    assert forall|i: int| 0 <= i < s.len() implies s[i] != '\n' by {
        if i < key.len() {
            assert(s[i] == key[i]);
            assert(key.contains(key[i]));
        }
    }
    assert(s.last() == bit(b)[0]);
}

/// What a key of the settings file is made of.
spec fn plain_key(key: Seq<char>) -> bool {
    &&& key.len() > 0
    &&& !key.contains('=')
    &&& !key.contains('\n')
    &&& !crate::text::space(key[0])
    &&& !crate::text::space(key.last())
}

proof fn lemma_key_variants_row()
    ensures
        plain_key("variants_row"@),
{
    reveal_strlit("variants_row");
}

proof fn lemma_key_sounds()
    ensures
        plain_key("sounds"@),
{
    reveal_strlit("sounds");
}

proof fn lemma_key_skip_existing()
    ensures
        plain_key("skip_existing"@),
{
    reveal_strlit("skip_existing");
}

proof fn lemma_key_cleanup()
    ensures
        plain_key("cleanup"@),
{
    reveal_strlit("cleanup");
}

proof fn lemma_key_show_advanced()
    ensures
        plain_key("show_advanced"@),
{
    reveal_strlit("show_advanced");
}

proof fn lemma_literals()
    ensures
        "variants_row="@ == "variants_row"@.push('='),
        "\nsounds="@ == seq!['\n'] + "sounds"@.push('='),
        "\nskip_existing="@ == seq!['\n'] + "skip_existing"@.push('='),
        "\ncleanup="@ == seq!['\n'] + "cleanup"@.push('='),
        "\nshow_advanced="@ == seq!['\n'] + "show_advanced"@.push('='),
        "\n"@ == seq!['\n'],
{
    reveal_strlit("variants_row");
    reveal_strlit("sounds");
    reveal_strlit("skip_existing");
    reveal_strlit("cleanup");
    reveal_strlit("show_advanced");
    reveal_strlit("variants_row=");
    reveal_strlit("\nsounds=");
    reveal_strlit("\nskip_existing=");
    reveal_strlit("\ncleanup=");
    reveal_strlit("\nshow_advanced=");
    reveal_strlit("\n");
    assert("variants_row="@ =~= "variants_row"@.push('='));
    assert("\nsounds="@ =~= seq!['\n'] + "sounds"@.push('='));
    assert("\nskip_existing="@ =~= seq!['\n'] + "skip_existing"@.push('='));
    assert("\ncleanup="@ =~= seq!['\n'] + "cleanup"@.push('='));
    assert("\nshow_advanced="@ =~= seq!['\n'] + "show_advanced"@.push('='));
    assert("\n"@ =~= seq!['\n']);
}

/// A text in front of which a line stands.
spec fn led(line: Seq<char>, rest: Seq<char>) -> Seq<char> {
    line.push('\n') + rest
}

/// `f`, and behind it a line feed and `t`.
spec fn followed(f: Seq<char>, t: Seq<char>) -> Seq<char> {
    f + (seq!['\n'] + t)
}

proof fn lemma_one_line(f: Seq<char>, key: Seq<char>, b: bool, t: Seq<char>)
    ensures
        followed(f + (seq!['\n'] + key.push('=')) + bit(b), t) == followed(
            f,
            led(setting(key, b), t),
        ),
{
    let x = followed(f + (seq!['\n'] + key.push('=')) + bit(b), t);
    let y = followed(f, led(setting(key, b), t));
    assert(x =~= y);
}

proof fn lemma_file(s: Settings)
    ensures
        settings_file(s) == led(
            setting("variants_row"@, s.variants_row),
            led(
                setting("sounds"@, s.sounds),
                led(
                    setting("skip_existing"@, s.skip_existing),
                    led(
                        setting("cleanup"@, s.cleanup),
                        led(setting("show_advanced"@, s.show_advanced), Seq::empty()),
                    ),
                ),
            ),
        ),
{
    lemma_literals();
    let end = Seq::<char>::empty();
    let f0 = "variants_row="@ + bit(s.variants_row);
    let f1 = f0 + "\nsounds="@ + bit(s.sounds);
    let f2 = f1 + "\nskip_existing="@ + bit(s.skip_existing);
    let f3 = f2 + "\ncleanup="@ + bit(s.cleanup);
    let t4 = led(setting("show_advanced"@, s.show_advanced), end);
    let t3 = led(setting("cleanup"@, s.cleanup), t4);
    let t2 = led(setting("skip_existing"@, s.skip_existing), t3);
    let t1 = led(setting("sounds"@, s.sounds), t2);
    assert(seq!['\n'] + end =~= seq!['\n']);
    lemma_one_line(f3, "show_advanced"@, s.show_advanced, end);
    lemma_one_line(f2, "cleanup"@, s.cleanup, t4);
    lemma_one_line(f1, "skip_existing"@, s.skip_existing, t3);
    lemma_one_line(f0, "sounds"@, s.sounds, t2);
    lemma_lead(setting("variants_row"@, s.variants_row), t1);
}

proof fn lemma_lead(l: Seq<char>, t: Seq<char>)
    ensures
        followed(l, t) == led(l, t),
{
    assert(followed(l, t) =~= led(l, t));
}

proof fn lemma_file_lines(s: Settings)
    ensures
        lines(settings_file(s)) == seq![
            setting("variants_row"@, s.variants_row),
            setting("sounds"@, s.sounds),
            setting("skip_existing"@, s.skip_existing),
            setting("cleanup"@, s.cleanup),
            setting("show_advanced"@, s.show_advanced),
        ],
{
    lemma_file(s);
    lemma_key_variants_row();
    lemma_setting("variants_row"@, s.variants_row);
    let l0 = setting("variants_row"@, s.variants_row);
    lemma_key_sounds();
    lemma_setting("sounds"@, s.sounds);
    let l1 = setting("sounds"@, s.sounds);
    lemma_key_skip_existing();
    lemma_setting("skip_existing"@, s.skip_existing);
    let l2 = setting("skip_existing"@, s.skip_existing);
    lemma_key_cleanup();
    lemma_setting("cleanup"@, s.cleanup);
    let l3 = setting("cleanup"@, s.cleanup);
    lemma_key_show_advanced();
    lemma_setting("show_advanced"@, s.show_advanced);
    let l4 = setting("show_advanced"@, s.show_advanced);
    lemma_lines_of_five(l0, l1, l2, l3, l4);
}

/// A line that ends where it seems to.
spec fn plain_line(l: Seq<char>) -> bool {
    !l.contains('\n') && (l.len() > 0 ==> l.last() != '\r')
}

proof fn lemma_led(l: Seq<char>, rest: Seq<char>, ls: Seq<Seq<char>>)
    requires
        plain_line(l),
        lines(rest) == ls,
    ensures
        lines(led(l, rest)) == seq![l] + ls,
{
    crate::text::lemma_first_line(l, rest);
}

proof fn lemma_lines_of_five(
    l0: Seq<char>,
    l1: Seq<char>,
    l2: Seq<char>,
    l3: Seq<char>,
    l4: Seq<char>,
)
    requires
        plain_line(l0),
        plain_line(l1),
        plain_line(l2),
        plain_line(l3),
        plain_line(l4),
    ensures
        lines(led(l0, led(l1, led(l2, led(l3, led(l4, Seq::empty())))))) == seq![
            l0,
            l1,
            l2,
            l3,
            l4,
        ],
{
    let end = Seq::<char>::empty();
    assert(lines(end) =~= Seq::<Seq<char>>::empty());
    let s4 = seq![l4] + Seq::<Seq<char>>::empty();
    let s3 = seq![l3] + s4;
    let s2 = seq![l2] + s3;
    let s1 = seq![l1] + s2;
    lemma_led(l4, end, Seq::empty());
    lemma_led(l3, led(l4, end), s4);
    lemma_led(l2, led(l3, led(l4, end)), s3);
    lemma_led(l1, led(l2, led(l3, led(l4, end))), s2);
    lemma_led(l0, led(l1, led(l2, led(l3, led(l4, end)))), s1);
    assert(seq![l0] + s1 =~= seq![l0, l1, l2, l3, l4]);
}

proof fn lemma_take_variants_row(x: Settings, b: bool)
    ensures
        with_line(x, setting("variants_row"@, b)) == (Settings { variants_row: b, ..x }),
{
    lemma_key_variants_row();
    lemma_setting("variants_row"@, b);
    lemma_keys_differ();
}

proof fn lemma_take_sounds(x: Settings, b: bool)
    ensures
        with_line(x, setting("sounds"@, b)) == (Settings { sounds: b, ..x }),
{
    lemma_key_sounds();
    lemma_setting("sounds"@, b);
    lemma_keys_differ();
}

proof fn lemma_take_skip_existing(x: Settings, b: bool)
    ensures
        with_line(x, setting("skip_existing"@, b)) == (Settings { skip_existing: b, ..x }),
{
    lemma_key_skip_existing();
    lemma_setting("skip_existing"@, b);
    lemma_keys_differ();
}

proof fn lemma_take_cleanup(x: Settings, b: bool)
    ensures
        with_line(x, setting("cleanup"@, b)) == (Settings { cleanup: b, ..x }),
{
    lemma_key_cleanup();
    lemma_setting("cleanup"@, b);
    lemma_keys_differ();
}

proof fn lemma_take_show_advanced(x: Settings, b: bool)
    ensures
        with_line(x, setting("show_advanced"@, b)) == (Settings { show_advanced: b, ..x }),
{
    lemma_key_show_advanced();
    lemma_setting("show_advanced"@, b);
    lemma_keys_differ();
}

/// Settings that were saved are loaded again as they were, whatever they were in
/// the meantime.
pub proof fn settings_survive(s: Settings, meanwhile: Settings)
    ensures
        with_lines(meanwhile, lines(settings_file(s))) == s,
{
    lemma_file_lines(s);
    lemma_five_lines(meanwhile, lines(settings_file(s)));
    lemma_take_variants_row(meanwhile, s.variants_row);
    let a = Settings { variants_row: s.variants_row, ..meanwhile };
    lemma_take_sounds(a, s.sounds);
    let b = Settings { sounds: s.sounds, ..a };
    lemma_take_skip_existing(b, s.skip_existing);
    let c = Settings { skip_existing: s.skip_existing, ..b };
    lemma_take_cleanup(c, s.cleanup);
    let d = Settings { cleanup: s.cleanup, ..c };
    lemma_take_show_advanced(d, s.show_advanced);
}

proof fn lemma_five_lines(s: Settings, v: Seq<Seq<char>>)
    requires
        v.len() == 5,
    ensures
        with_lines(s, v) == with_line(
            with_line(with_line(with_line(with_line(s, v[0]), v[1]), v[2]), v[3]),
            v[4],
        ),
{
    assert(v.drop_last().drop_last().drop_last().drop_last().drop_last() =~= Seq::empty());
    reveal_with_fuel(with_lines, 6);
}

proof fn lemma_keys_differ()
    ensures
        "variants_row"@ != "sounds"@,
        "variants_row"@ != "skip_existing"@,
        "variants_row"@ != "cleanup"@,
        "variants_row"@ != "show_advanced"@,
        "sounds"@ != "skip_existing"@,
        "sounds"@ != "cleanup"@,
        "sounds"@ != "show_advanced"@,
        "skip_existing"@ != "cleanup"@,
        "skip_existing"@ != "show_advanced"@,
        "cleanup"@ != "show_advanced"@,
{
    reveal_strlit("variants_row");
    reveal_strlit("sounds");
    reveal_strlit("skip_existing");
    reveal_strlit("cleanup");
    reveal_strlit("show_advanced");
    assert("variants_row"@.len() == 12);
    assert("sounds"@.len() == 6);
    assert("skip_existing"@.len() == 13);
    assert("cleanup"@.len() == 7);
    assert("show_advanced"@.len() == 13);
    assert("skip_existing"@[1] != "show_advanced"@[1]);
}

} // verus!
