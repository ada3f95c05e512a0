//! The course of a conversion: what is done after what, what is said on the way,
//! and how it ends. The work itself is done elsewhere, and what came of it is told
//! here.

use crate::conversion::{
    body_came_through, body_converted, body_error, nothing_to_import, order_views, refusal,
    refusal_note, Order, OrderView,
};
use crate::matfile::{made_note, stand_in_note};
use crate::pipeline::{note_views, Note, NoteView};
use crate::session::{Msg, MsgView};
use crate::sounds::{notes, sound_notes, Report};
use crate::text::{cat, cat3, decimal, opt_text, texts, write_usize};
use vstd::prelude::*;

verus! {

// ---------------------------------------------------------------- state ---

/// What is being waited for.
#[derive(Clone, Copy, PartialEq, Eq, Structural)]
pub enum Stage {
    Looking,
    Opening,
    Extracting,
    Sounding,
    Resolving,
    Finding,
    Converting,
    Animating,
    Patching,
    Assembling,
    Cleaning,
    Ended,
}

/// How far a conversion has come.
pub struct RunState {
    pub skip_existing: bool,
    pub sounds: bool,
    pub cleanup: bool,
    /// the file to be written
    pub out: String,
    /// the folder of the working files
    pub work: String,
    /// the converter, as it is spoken of
    pub converter: String,
    pub body: String,
    pub orders: Vec<Order>,
    /// what became of the first of the orders
    pub ok: Vec<bool>,
    pub stage: Stage,
}

#[verifier::ext_equal]
pub struct RunView {
    pub skip_existing: bool,
    pub sounds: bool,
    pub cleanup: bool,
    pub out: Seq<char>,
    pub work: Seq<char>,
    pub converter: Seq<char>,
    pub body: Seq<char>,
    pub orders: Seq<OrderView>,
    pub ok: Seq<bool>,
    pub stage: Stage,
}

impl View for RunState {
    type V = RunView;

    open spec fn view(&self) -> RunView {
        RunView {
            skip_existing: self.skip_existing,
            sounds: self.sounds,
            cleanup: self.cleanup,
            out: self.out@,
            work: self.work@,
            converter: self.converter@,
            body: self.body@,
            orders: order_views(self.orders@),
            ok: self.ok@,
            stage: self.stage,
        }
    }
}

// --------------------------------------------------------------- events ---

/// What came of a piece of work.
pub enum Event {
    /// whether the file to be written is there already
    Found(bool),
    /// the archive is open, and whether it has been extracted before
    Opened { kind: String, entries: usize, extracted: bool },
    /// files named, recovered by the deep scan, and written under their hash
    Extracted { named: usize, recovered: usize, dumped: usize },
    Sounded { report: Report, encoder: bool },
    Resolved { notes: Vec<Note>, orders: Vec<Order>, body: String },
    Refused { notes: Vec<Note>, error: String },
    /// the converter is there
    Ready(String),
    Converted,
    /// the converter ran and refused the model
    Rejected(String),
    /// the converter did not even start
    CannotRun(String),
    /// animations put next to their models
    Staged(usize),
    /// the usual stand-ins, those made for textures that are missing, the normal
    /// maps marked, and the paint job whose texture is not there
    Patched {
        usual: Result<usize, String>,
        made: usize,
        missing: Vec<String>,
        marked: usize,
        unpainted: Option<String>,
    },
    /// the scene is written; what is said of it and of its size
    Assembled { summary: String, size: Result<String, String> },
    Removed,
    Failed(String),
}

pub enum EventView {
    Found(bool),
    Opened { kind: Seq<char>, entries: nat, extracted: bool },
    Extracted { named: nat, recovered: nat, dumped: nat },
    Sounded { report: Report, encoder: bool },
    Resolved { notes: Seq<NoteView>, orders: Seq<OrderView>, body: Seq<char> },
    Refused { notes: Seq<NoteView>, error: Seq<char> },
    Ready(Seq<char>),
    Converted,
    Rejected(Seq<char>),
    CannotRun(Seq<char>),
    Staged(nat),
    Patched {
        usual: Result<nat, Seq<char>>,
        made: nat,
        missing: Seq<Seq<char>>,
        marked: nat,
        unpainted: Option<Seq<char>>,
    },
    Assembled { summary: Seq<char>, size: Result<Seq<char>, Seq<char>> },
    Removed,
    Failed(Seq<char>),
}

pub open spec fn count_or_text(r: Result<usize, String>) -> Result<nat, Seq<char>> {
    match r {
        Ok(n) => Ok(n as nat),
        Err(e) => Err(e@),
    }
}

pub open spec fn text_or_text(r: Result<String, String>) -> Result<Seq<char>, Seq<char>> {
    match r {
        Ok(s) => Ok(s@),
        Err(e) => Err(e@),
    }
}

impl View for Event {
    type V = EventView;

    open spec fn view(&self) -> EventView {
        match *self {
            Event::Found(b) => EventView::Found(b),
            Event::Opened { kind, entries, extracted } => EventView::Opened {
                kind: kind@,
                entries: entries as nat,
                extracted,
            },
            Event::Extracted { named, recovered, dumped } => EventView::Extracted {
                named: named as nat,
                recovered: recovered as nat,
                dumped: dumped as nat,
            },
            Event::Sounded { report, encoder } => EventView::Sounded { report, encoder },
            Event::Resolved { notes, orders, body } => EventView::Resolved {
                notes: note_views(notes@),
                orders: order_views(orders@),
                body: body@,
            },
            Event::Refused { notes, error } => EventView::Refused {
                notes: note_views(notes@),
                error: error@,
            },
            Event::Ready(s) => EventView::Ready(s@),
            Event::Converted => EventView::Converted,
            Event::Rejected(s) => EventView::Rejected(s@),
            Event::CannotRun(s) => EventView::CannotRun(s@),
            Event::Staged(n) => EventView::Staged(n as nat),
            Event::Patched { usual, made, missing, marked, unpainted } => EventView::Patched {
                usual: count_or_text(usual),
                made: made as nat,
                missing: texts(missing@),
                marked: marked as nat,
                unpainted: opt_text(unpainted),
            },
            Event::Assembled { summary, size } => EventView::Assembled {
                summary: summary@,
                size: text_or_text(size),
            },
            Event::Removed => EventView::Removed,
            Event::Failed(s) => EventView::Failed(s@),
        }
    }
}

// -------------------------------------------------------------- actions ---

/// A piece of work to be done.
#[derive(Clone, Copy, Debug, PartialEq, Eq, Structural)]
pub enum Work {
    /// see whether the file to be written is there
    Look,
    Open,
    Extract,
    Sounds,
    Resolve,
    FindConverter,
    /// convert the order with this number
    Convert(usize),
    Animate,
    Patch,
    Assemble,
    Remove,
    Nothing,
}

/// What is to be said, and what is to be done next.
pub struct Action {
    pub says: Vec<Msg>,
    pub work: Work,
}

pub open spec fn msg_views(v: Seq<Msg>) -> Seq<MsgView> {
    Seq::new(v.len(), |i: int| v[i]@)
}

/// The work that a stage waits for.
pub open spec fn due(s: RunView) -> Work {
    match s.stage {
        Stage::Looking => Work::Look,
        Stage::Opening => Work::Open,
        Stage::Extracting => Work::Extract,
        Stage::Sounding => Work::Sounds,
        Stage::Resolving => Work::Resolve,
        Stage::Finding => Work::FindConverter,
        Stage::Converting => Work::Convert(s.ok.len() as usize),
        Stage::Animating => Work::Animate,
        Stage::Patching => Work::Patch,
        Stage::Assembling => Work::Assemble,
        Stage::Cleaning => Work::Remove,
        Stage::Ended => Work::Nothing,
    }
}

/// Notes, as messages.
pub open spec fn as_messages(v: Seq<NoteView>) -> Seq<MsgView> {
    Seq::new(
        v.len(),
        |i: int|
            match v[i] {
                NoteView::Info(s) => MsgView::Info(s),
                NoteView::Warn(s) => MsgView::Warn(s),
            },
    )
}

pub open spec fn info(s: Seq<char>) -> Seq<MsgView> {
    seq![MsgView::Info(s)]
}

pub open spec fn warning(s: Seq<char>) -> Seq<MsgView> {
    seq![MsgView::Warn(s)]
}

/// A warning, where there is anything to warn of.
pub open spec fn warning_if(s: Option<Seq<char>>) -> Seq<MsgView> {
    match s {
        Some(m) => warning(m),
        None => Seq::empty(),
    }
}

pub open spec fn info_if(s: Option<Seq<char>>) -> Seq<MsgView> {
    match s {
        Some(m) => info(m),
        None => Seq::empty(),
    }
}

impl RunView {
    pub open spec fn at(self, stage: Stage) -> RunView {
        RunView { stage, ..self }
    }

    /// On to a stage, which is announced.
    pub open spec fn on_to(self, says: Seq<MsgView>, stage: Stage, step: Seq<char>) -> (
        RunView,
        Seq<MsgView>,
    ) {
        (self.at(stage), says.push(MsgView::Step(step)))
    }

    pub open spec fn failing(self, says: Seq<MsgView>, m: Seq<char>) -> (RunView, Seq<MsgView>) {
        (self.at(Stage::Ended), says.push(MsgView::Error(m)))
    }

    pub open spec fn finishing(self, says: Seq<MsgView>) -> (RunView, Seq<MsgView>) {
        (self.at(Stage::Ended), says.push(MsgView::Done(seq![self.out])))
    }

    pub open spec fn resolving(self, says: Seq<MsgView>) -> (RunView, Seq<MsgView>) {
        self.on_to(says, Stage::Resolving, "Resolving vehicle definition"@)
    }

    /// Once the archive lies extracted: the sound, if it is wanted, comes first.
    pub open spec fn unpacked(self, says: Seq<MsgView>) -> (RunView, Seq<MsgView>) {
        if self.sounds {
            self.on_to(says, Stage::Sounding, "Extracting sound"@)
        } else {
            self.resolving(says)
        }
    }

    /// On to the next model, if one is left.
    pub open spec fn converting(self, says: Seq<MsgView>) -> (RunView, Seq<MsgView>) {
        (
            self.at(
                if self.ok.len() < self.orders.len() {
                    Stage::Converting
                } else {
                    Stage::Animating
                },
            ),
            says,
        )
    }

    /// Once the scene is written: the working files go, if that is wanted.
    pub open spec fn written(self, says: Seq<MsgView>) -> (RunView, Seq<MsgView>) {
        if self.cleanup {
            self.on_to(says, Stage::Cleaning, "Cleaning up"@)
        } else {
            self.finishing(says + info("working files kept in "@ + self.work))
        }
    }

    /// What an event leads to, and what is said of it. An event that is not waited
    /// for changes nothing.
    pub open spec fn step(self, e: EventView) -> (RunView, Seq<MsgView>) {
        let none = Seq::<MsgView>::empty();
        match (self.stage, e) {
            (Stage::Looking, EventView::Found(there)) => if there && self.skip_existing {
                self.finishing(info("already converted, skipping ("@ + self.out + ")"@))
            } else {
                self.on_to(none, Stage::Opening, "Extracting archive"@)
            },
            (Stage::Opening, EventView::Opened { kind, entries, extracted }) => {
                let says = info(kind + " - "@ + decimal(entries) + " entries"@);
                if extracted {
                    self.unpacked(says + info("already extracted, reusing"@))
                } else {
                    (self.at(Stage::Extracting), says)
                }
            },
            (Stage::Extracting, EventView::Extracted { named, recovered, dumped }) => self.unpacked(
                info(extraction_said(named, recovered, dumped)),
            ),
            (Stage::Sounding, EventView::Sounded { report, encoder }) => self.resolving(
                warning_if(sound_notes(report, encoder).0) + info(sound_notes(report, encoder).1),
            ),
            (Stage::Sounding, EventView::Failed(m)) => self.resolving(
                warning("could not extract sound: "@ + m),
            ),
            (Stage::Resolving, EventView::Resolved { notes, orders, body }) => (RunView {
                orders,
                body,
                ok: Seq::empty(),
                ..self
            }).on_to(as_messages(notes), Stage::Finding, "Converting models to mid-format"@),
            (Stage::Resolving, EventView::Refused { notes, error }) => self.failing(
                as_messages(notes),
                error,
            ),
            (Stage::Finding, EventView::Ready(converter)) => (RunView {
                converter,
                ..self
            }).converting(none),
            (Stage::Converting, EventView::Converted) => (RunView {
                ok: self.ok.push(true),
                ..self
            }).converting(none),
            (Stage::Converting, EventView::Rejected(why)) => (RunView {
                ok: self.ok.push(false),
                ..self
            }).converting(warning(refusal(self.orders[self.ok.len() as int].model, why))),
            // if it will not start once it will not start forty times either
            (Stage::Converting, EventView::CannotRun(m)) => self.failing(
                none,
                "cannot run "@ + self.converter + ": "@ + m,
            ),
            (Stage::Animating, EventView::Staged(n)) => {
                let says = if n > 0 {
                    info(decimal(n) + " animation files staged next to their model"@)
                } else {
                    none
                };
                if body_came_through(self.orders, self.ok, self.body) {
                    self.on_to(
                        says,
                        Stage::Patching,
                        "Patching missing textures and normal maps"@,
                    )
                } else {
                    self.failing(says, nothing_to_import(self.body))
                }
            },
            (
                Stage::Patching,
                EventView::Patched { usual, made, missing, marked, unpainted },
            ) => self.on_to(
                (match usual {
                    Ok(n) => info(
                        decimal(n) + " placeholder textures for the usual base-game files"@,
                    ),
                    Err(m) => warning("placeholders: "@ + m),
                }) + info_if(made_note(made, missing)) + info(
                    decimal(marked) + " normal-map .tobj marked tsnormal"@,
                ) + warning_if(
                    match unpainted {
                        Some(mask) => Some(
                            "paint job texture "@ + mask + " is not in this archive"@,
                        ),
                        None => None,
                    },
                ),
                Stage::Assembling,
                "Assembling the model"@,
            ),
            (Stage::Assembling, EventView::Assembled { summary, size }) => self.written(
                info(summary) + (match size {
                    Ok(s) => info(s),
                    Err(m) => warning("could not stat the .fbx: "@ + m),
                }),
            ),
            (Stage::Assembling, EventView::Failed(m)) => self.failing(
                none,
                "could not write the FBX: "@ + m,
            ),
            (Stage::Cleaning, EventView::Removed) => self.finishing(
                info("removed the working folder"@),
            ),
            (Stage::Cleaning, EventView::Failed(m)) => self.finishing(
                warning("could not remove "@ + self.work + ": "@ + m),
            ),
            (Stage::Opening, EventView::Failed(m)) => self.failing(none, m),
            (Stage::Extracting, EventView::Failed(m)) => self.failing(none, m),
            (Stage::Finding, EventView::Failed(m)) => self.failing(none, m),
            _ => (self, none),
        }
    }
}

// ------------------------------------------------------------ advancing ---

fn say(v: &mut Vec<Msg>, m: Msg)
    ensures
        msg_views(final(v)@) == msg_views(old(v)@).push(m@),
{
    let ghost was = msg_views(v@);
    let ghost mv = m@;
    v.push(m);
    assert(msg_views(v@) =~= was.push(mv));
}

fn say_info(v: &mut Vec<Msg>, s: String)
    ensures
        msg_views(final(v)@) == msg_views(old(v)@) + info(s@),
{
    let ghost was = msg_views(v@);
    say(v, Msg::Info(s));
    assert(msg_views(v@) =~= was + info(s@));
}

fn say_warning(v: &mut Vec<Msg>, s: String)
    ensures
        msg_views(final(v)@) == msg_views(old(v)@) + warning(s@),
{
    let ghost was = msg_views(v@);
    say(v, Msg::Warn(s));
    assert(msg_views(v@) =~= was + warning(s@));
}

fn say_step(v: &mut Vec<Msg>, s: &str)
    ensures
        msg_views(final(v)@) == msg_views(old(v)@).push(MsgView::Step(s@)),
{
    say(v, Msg::Step(s.to_owned()));
}

fn say_info_if(v: &mut Vec<Msg>, s: Option<String>)
    ensures
        msg_views(final(v)@) == msg_views(old(v)@) + info_if(opt_text(s)),
{
    let ghost was = msg_views(v@);
    match s {
        Some(m) => say_info(v, m),
        None => {
            assert(msg_views(v@) =~= was + Seq::<MsgView>::empty());
        },
    }
}

fn say_warning_if(v: &mut Vec<Msg>, s: Option<String>)
    ensures
        msg_views(final(v)@) == msg_views(old(v)@) + warning_if(opt_text(s)),
{
    let ghost was = msg_views(v@);
    match s {
        Some(m) => say_warning(v, m),
        None => {
            assert(msg_views(v@) =~= was + Seq::<MsgView>::empty());
        },
    }
}

fn just_info(s: String) -> (r: Vec<Msg>)
    ensures
        msg_views(r@) == info(s@),
{
    let mut r: Vec<Msg> = Vec::new();
    say_info(&mut r, s);
    assert(msg_views(r@) =~= info(s@));
    r
}

fn just_warning(s: String) -> (r: Vec<Msg>)
    ensures
        msg_views(r@) == warning(s@),
{
    let mut r: Vec<Msg> = Vec::new();
    say_warning(&mut r, s);
    assert(msg_views(r@) =~= warning(s@));
    r
}

/// What is said of an extraction.
pub open spec fn extraction_said(named: nat, recovered: nat, dumped: nat) -> Seq<char> {
    decimal(named) + " named + "@ + decimal(recovered) + " recovered by deep scan, "@ + decimal(
        dumped,
    ) + " written under their hash"@
}

fn extraction_note(named: usize, recovered: usize, dumped: usize) -> (r: String)
    ensures
        r@ == extraction_said(named as nat, recovered as nat, dumped as nat),
{
    let a = cat3(write_usize(named).as_str(), " named + ", write_usize(recovered).as_str());
    let b = cat3(a.as_str(), " recovered by deep scan, ", write_usize(dumped).as_str());
    cat(b.as_str(), " written under their hash")
}

fn say_notes(v: &mut Vec<Msg>, n: Vec<Note>)
    ensures
        msg_views(final(v)@) == msg_views(old(v)@) + as_messages(note_views(n@)),
{
    let ghost was = msg_views(v@);
    let ghost all = as_messages(note_views(n@));
    let mut i: usize = 0;
    assert(msg_views(v@) =~= was + all.take(0));
    while i < n.len()
        invariant
            i <= n@.len(),
            all == as_messages(note_views(n@)),
            msg_views(v@) == was + all.take(i as int),
        decreases n@.len() - i,
    {
        let ghost before = msg_views(v@);
        match &n[i] {
            Note::Info(s) => say(v, Msg::Info(s.as_str().to_owned())),
            Note::Warn(s) => say(v, Msg::Warn(s.as_str().to_owned())),
        }
        assert(note_views(n@)[i as int] == n@[i as int]@);
        assert(msg_views(v@) =~= before.push(all[i as int]));
        assert(before.push(all[i as int]) =~= was + all.take(i + 1));
        i = i + 1;
    }
    assert(all.take(i as int) =~= all);
}

impl RunState {
    /// There is a model to be converted as long as that is waited for.
    pub open spec fn wf(self) -> bool {
        self.stage == Stage::Converting ==> self.ok@.len() < self.orders@.len()
    }

    pub fn new(skip_existing: bool, sounds: bool, cleanup: bool, out: &str, work: &str) -> (r:
        RunState)
        ensures
            r.wf(),
            r@ == (RunView {
                skip_existing,
                sounds,
                cleanup,
                out: out@,
                work: work@,
                converter: Seq::empty(),
                body: Seq::empty(),
                orders: Seq::empty(),
                ok: Seq::empty(),
                stage: Stage::Looking,
            }),
    {
        let r = RunState {
            skip_existing,
            sounds,
            cleanup,
            out: out.to_owned(),
            work: work.to_owned(),
            converter: String::new(),
            body: String::new(),
            orders: Vec::new(),
            ok: Vec::new(),
            stage: Stage::Looking,
        };
        assert(r@ =~= (RunView {
            skip_existing,
            sounds,
            cleanup,
            out: out@,
            work: work@,
            converter: Seq::empty(),
            body: Seq::empty(),
            orders: Seq::empty(),
            ok: Seq::empty(),
            stage: Stage::Looking,
        }));
        r
    }

    /// The work that is waited for.
    pub fn work_due(&self) -> (r: Work)
        ensures
            r == due(self@),
    {
        match self.stage {
            Stage::Looking => Work::Look,
            Stage::Opening => Work::Open,
            Stage::Extracting => Work::Extract,
            Stage::Sounding => Work::Sounds,
            Stage::Resolving => Work::Resolve,
            Stage::Finding => Work::FindConverter,
            Stage::Converting => Work::Convert(self.ok.len()),
            Stage::Animating => Work::Animate,
            Stage::Patching => Work::Patch,
            Stage::Assembling => Work::Assemble,
            Stage::Cleaning => Work::Remove,
            Stage::Ended => Work::Nothing,
        }
    }

    fn fail(&mut self, v: &mut Vec<Msg>, m: String)
        ensures
            (final(self)@, msg_views(final(v)@)) == old(self)@.failing(msg_views(old(v)@), m@),
            final(self).wf(),
    {
        self.stage = Stage::Ended;
        say(v, Msg::Error(m));
    }

    fn finish(&mut self, v: &mut Vec<Msg>)
        ensures
            (final(self)@, msg_views(final(v)@)) == old(self)@.finishing(msg_views(old(v)@)),
            final(self).wf(),
    {
        self.stage = Stage::Ended;
        let mut out: Vec<String> = Vec::new();
        out.push(self.out.as_str().to_owned());
        assert(texts(out@) =~= seq![self.out@]);
        say(v, Msg::Done(out));
    }

    fn go_on(&mut self, v: &mut Vec<Msg>, stage: Stage, step: &str)
        requires
            stage != Stage::Converting,
        ensures
            (final(self)@, msg_views(final(v)@)) == old(self)@.on_to(
                msg_views(old(v)@),
                stage,
                step@,
            ),
            final(self).wf(),
    {
        self.stage = stage;
        say_step(v, step);
    }

    fn go_resolve(&mut self, v: &mut Vec<Msg>)
        ensures
            (final(self)@, msg_views(final(v)@)) == old(self)@.resolving(msg_views(old(v)@)),
            final(self).wf(),
    {
        self.go_on(v, Stage::Resolving, "Resolving vehicle definition");
    }

    fn have_unpacked(&mut self, v: &mut Vec<Msg>)
        ensures
            (final(self)@, msg_views(final(v)@)) == old(self)@.unpacked(msg_views(old(v)@)),
            final(self).wf(),
    {
        if self.sounds {
            self.go_on(v, Stage::Sounding, "Extracting sound");
        } else {
            self.go_resolve(v);
        }
    }

    fn go_convert(&mut self)
        ensures
            final(self)@ == old(self)@.converting(Seq::empty()).0,
            final(self).wf(),
    {
        if self.ok.len() < self.orders.len() {
            self.stage = Stage::Converting;
        } else {
            self.stage = Stage::Animating;
        }
    }

    fn have_written(&mut self, v: &mut Vec<Msg>)
        ensures
            (final(self)@, msg_views(final(v)@)) == old(self)@.written(msg_views(old(v)@)),
            final(self).wf(),
    {
        if self.cleanup {
            self.go_on(v, Stage::Cleaning, "Cleaning up");
        } else {
            say_info(v, cat("working files kept in ", self.work.as_str()));
            self.finish(v);
        }
    }

    /// Takes in what came of a piece of work, and gives what is to be said.
    fn take_in(&mut self, e: Event) -> (r: Vec<Msg>)
        requires
            old(self).wf(),
        ensures
            (final(self)@, msg_views(r@)) == old(self)@.step(e@),
            final(self).wf(),
    {
        let ghost was = self@;
        let mut v: Vec<Msg> = Vec::new();
        assert(msg_views(v@) =~= Seq::<MsgView>::empty());
        match e {
            Event::Found(there) => if self.stage == Stage::Looking {
                if there && self.skip_existing {
                    v = just_info(cat3("already converted, skipping (", self.out.as_str(), ")"));
                    self.finish(&mut v);
                } else {
                    self.go_on(&mut v, Stage::Opening, "Extracting archive");
                }
            },
            Event::Opened { kind, entries, extracted } => if self.stage == Stage::Opening {
                let n = write_usize(entries);
                v = just_info(cat(cat3(kind.as_str(), " - ", n.as_str()).as_str(), " entries"));
                if extracted {
                    say_info(&mut v, "already extracted, reusing".to_owned());
                    self.have_unpacked(&mut v);
                } else {
                    self.stage = Stage::Extracting;
                }
            },
            Event::Extracted { named, recovered, dumped } => if self.stage == Stage::Extracting {
                v = just_info(extraction_note(named, recovered, dumped));
                self.have_unpacked(&mut v);
            },
            Event::Sounded { report, encoder } => if self.stage == Stage::Sounding {
                let (warned, told) = notes(&report, encoder);
                say_warning_if(&mut v, warned);
                say_info(&mut v, told);
                assert(Seq::<MsgView>::empty() + warning_if(opt_text(warned)) =~= warning_if(
                    opt_text(warned),
                ));
                self.go_resolve(&mut v);
            },
            Event::Resolved { notes, orders, body } => if self.stage == Stage::Resolving {
                say_notes(&mut v, notes);
                assert(Seq::<MsgView>::empty() + as_messages(note_views(notes@)) =~= as_messages(
                    note_views(notes@),
                ));
                self.orders = orders;
                self.body = body;
                self.ok = Vec::new();
                assert(self@ =~= (RunView {
                    orders: order_views(orders@),
                    body: body@,
                    ok: Seq::empty(),
                    ..was
                }));
                self.go_on(&mut v, Stage::Finding, "Converting models to mid-format");
            },
            Event::Refused { notes, error } => if self.stage == Stage::Resolving {
                say_notes(&mut v, notes);
                assert(Seq::<MsgView>::empty() + as_messages(note_views(notes@)) =~= as_messages(
                    note_views(notes@),
                ));
                self.fail(&mut v, error);
            },
            Event::Ready(converter) => if self.stage == Stage::Finding {
                self.converter = converter;
                self.go_convert();
            },
            Event::Converted => if self.stage == Stage::Converting {
                self.ok.push(true);
                self.go_convert();
            },
            Event::Rejected(why) => if self.stage == Stage::Converting {
                let k: usize = self.ok.len();
                assert(order_views(self.orders@)[k as int] == self.orders@[k as int]@);
                v = just_warning(refusal_note(self.orders[k].model.as_str(), why.as_str()));
                self.ok.push(false);
                self.go_convert();
            },
            Event::CannotRun(m) => if self.stage == Stage::Converting {
                let why = cat3("cannot run ", self.converter.as_str(), ": ");
                self.fail(&mut v, cat(why.as_str(), m.as_str()));
            },
            Event::Staged(n) => if self.stage == Stage::Animating {
                if n > 0 {
                    v = just_info(
                        cat(
                            write_usize(n).as_str(),
                            " animation files staged next to their model",
                        ),
                    );
                }
                if body_converted(&self.orders, &self.ok, self.body.as_str()) {
                    self.go_on(
                        &mut v,
                        Stage::Patching,
                        "Patching missing textures and normal maps",
                    );
                } else {
                    let why = body_error(self.body.as_str());
                    self.fail(&mut v, why);
                }
            },
            Event::Patched { usual, made, missing, marked, unpainted } => if self.stage
                == Stage::Patching {
                v = match usual {
                    Ok(n) => just_info(
                        cat(
                            write_usize(n).as_str(),
                            " placeholder textures for the usual base-game files",
                        ),
                    ),
                    Err(m) => just_warning(cat("placeholders: ", m.as_str())),
                };
                say_info_if(&mut v, stand_in_note(made, &missing));
                say_info(
                    &mut v,
                    cat(write_usize(marked).as_str(), " normal-map .tobj marked tsnormal"),
                );
                let bare = match unpainted {
                    Some(mask) => Some(
                        cat3("paint job texture ", mask.as_str(), " is not in this archive"),
                    ),
                    None => None,
                };
                say_warning_if(&mut v, bare);
                self.go_on(&mut v, Stage::Assembling, "Assembling the model");
            },
            Event::Assembled { summary, size } => if self.stage == Stage::Assembling {
                v = just_info(summary);
                match size {
                    Ok(s) => say_info(&mut v, s),
                    Err(m) => say_warning(
                        &mut v,
                        cat("could not stat the .fbx: ", m.as_str()),
                    ),
                }
                self.have_written(&mut v);
            },
            Event::Removed => if self.stage == Stage::Cleaning {
                v = just_info("removed the working folder".to_owned());
                self.finish(&mut v);
            },
            Event::Failed(m) => {
                if self.stage == Stage::Opening || self.stage == Stage::Extracting || self.stage
                    == Stage::Finding {
                    self.fail(&mut v, m);
                } else if self.stage == Stage::Sounding {
                    v = just_warning(cat("could not extract sound: ", m.as_str()));
                    self.go_resolve(&mut v);
                } else if self.stage == Stage::Assembling {
                    self.fail(&mut v, cat("could not write the FBX: ", m.as_str()));
                } else if self.stage == Stage::Cleaning {
                    let why = cat3("could not remove ", self.work.as_str(), ": ");
                    v = just_warning(cat(why.as_str(), m.as_str()));
                    self.finish(&mut v);
                }
            },
        }
        v
    }
}

/// What follows when a piece of work is done: how far the conversion then is, what
/// is to be said of it, and what is to be done next.
pub fn advance(s: RunState, e: Event) -> (r: (RunState, Action))
    requires
        s.wf(),
    ensures
        r.0.wf(),
        (r.0@, msg_views(r.1.says@)) == s@.step(e@),
        r.1.work == due(r.0@),
{
    let mut s = s;
    let says = s.take_in(e);
    let work: Work = s.work_due();
    (s, Action { says, work })
}

// ----------------------------------------------------------------- laws ---

/// Whether a message ends a conversion.
pub open spec fn ends_it(m: MsgView) -> bool {
    m is Done || m is Error
}

/// Whether nothing comes behind a message that ends a conversion.
pub open spec fn ends_last(says: Seq<MsgView>) -> bool {
    forall|k: int| 0 <= k < says.len() - 1 ==> !ends_it(#[trigger] says[k])
}

/// Nothing follows the end: whatever is told then, nothing is said and nothing is
/// to be done.
pub proof fn nothing_follows_the_end(s: RunView, e: EventView)
    requires
        s.stage == Stage::Ended,
    ensures
        s.step(e) == (s, Seq::<MsgView>::empty()),
        due(s) == Work::Nothing,
{
}

/// A conversion ends by saying so, and says so only when it ends: the message comes
/// last, and there is no other.
pub proof fn the_end_is_told_once(s: RunView, e: EventView)
    requires
        s.stage != Stage::Ended,
    ensures
        ends_last(s.step(e).1),
        s.step(e).0.stage == Stage::Ended <==> s.step(e).1.len() > 0 && ends_it(
            s.step(e).1.last(),
        ),
{
}

/// How far a conversion is after some events, and all that was said.
pub open spec fn course(s: RunView, es: Seq<EventView>) -> (RunView, Seq<MsgView>)
    decreases es.len(),
{
    if es.len() == 0 {
        (s, Seq::empty())
    } else {
        let c = course(s, es.drop_last());
        (c.0.step(es.last()).0, c.1 + c.0.step(es.last()).1)
    }
}

/// Over the whole of a conversion, whatever happens, there is one ending message at
/// most, nothing is said behind it, and it is there once the conversion has ended.
pub proof fn one_ending_comes_last(s: RunView, es: Seq<EventView>)
    requires
        s.stage != Stage::Ended,
    ensures
        ends_last(course(s, es).1),
        course(s, es).0.stage == Stage::Ended <==> course(s, es).1.len() > 0 && ends_it(
            course(s, es).1.last(),
        ),
    decreases es.len(),
{
    if es.len() > 0 {
        one_ending_comes_last(s, es.drop_last());
        let c = course(s, es.drop_last());
        let e = es.last();
        let more = c.0.step(e).1;
        let all = course(s, es).1;
        assert(all == c.1 + more);
        if c.0.stage == Stage::Ended {
            nothing_follows_the_end(c.0, e);
            assert(all =~= c.1);
        } else {
            the_end_is_told_once(c.0, e);
            assert forall|k: int| 0 <= k < all.len() - 1 implies !ends_it(#[trigger] all[k]) by {
                if k < c.1.len() {
                    assert(all[k] == c.1[k]);
                    if k == c.1.len() - 1 {
                        assert(c.1.last() == all[k]);
                    }
                } else {
                    assert(all[k] == more[k - c.1.len()]);
                }
            }
            if more.len() > 0 {
                assert(all.last() == more.last());
            } else {
                assert(all =~= c.1);
            }
        }
    }
}

/// A scene that is there already is left alone, if that is wanted: nothing but its
/// name is said.
pub proof fn a_finished_scene_is_skipped(s: RunView)
    requires
        s.stage == Stage::Looking,
        s.skip_existing,
    ensures
        s.step(EventView::Found(true)).0.stage == Stage::Ended,
        s.step(EventView::Found(true)).1.last() == MsgView::Done(seq![s.out]),
{
}

/// An archive that was extracted before is not extracted again.
pub proof fn an_extraction_is_reused(s: RunView, kind: Seq<char>, entries: nat)
    requires
        s.stage == Stage::Opening,
    ensures
        due(s.step(EventView::Opened { kind, entries, extracted: true }).0) != Work::Extract,
        due(s.step(EventView::Opened { kind, entries, extracted: false }).0) == Work::Extract,
{
}

/// Where the converter cannot start, it is not tried again.
pub proof fn a_converter_that_cannot_start_ends_it(s: RunView, m: Seq<char>)
    requires
        s.stage == Stage::Converting,
    ensures
        s.step(EventView::CannotRun(m)).0.stage == Stage::Ended,
        s.step(EventView::CannotRun(m)).1 == seq![
            MsgView::Error("cannot run "@ + s.converter + ": "@ + m),
        ],
{
}

/// How many stages a conversion has before it, at most.
pub open spec fn stages_left(s: Stage) -> nat {
    match s {
        Stage::Looking => 11,
        Stage::Opening => 10,
        Stage::Extracting => 9,
        Stage::Sounding => 8,
        Stage::Resolving => 7,
        Stage::Finding => 6,
        Stage::Converting => 5,
        Stage::Animating => 4,
        Stage::Patching => 3,
        Stage::Assembling => 2,
        Stage::Cleaning => 1,
        Stage::Ended => 0,
    }
}

/// A conversion never goes back: what happens leads to a later stage, or to the next
/// of the models, or changes nothing.
pub proof fn a_conversion_never_goes_back(s: RunView, e: EventView)
    ensures
        ({
            let n = s.step(e).0;
            ||| stages_left(n.stage) < stages_left(s.stage)
            ||| n.stage == s.stage && n.orders == s.orders && n.ok.len() == s.ok.len() + 1
            ||| n == s
        }),
{
}

} // verus!
