use scs2fbx::conversion::Order;
use scs2fbx::course::{advance, Event, RunState, Stage, Work};
use scs2fbx::pipeline::Note;
use scs2fbx::session::Msg;
use scs2fbx::sounds::Report;

fn text(m: &Msg) -> String {
    match m {
        Msg::Step(s) => format!("== {s}"),
        Msg::Info(s) => s.clone(),
        Msg::Warn(s) => format!("! {s}"),
        Msg::Error(s) => format!("ERROR {s}"),
        Msg::Done(v) => format!("DONE {}", v.join(" ")),
    }
}

/// Tells one event after another; gives all that was said and the work due then.
fn tell(s: RunState, es: Vec<Event>) -> (Vec<String>, Work) {
    let mut s = s;
    let mut said = Vec::new();
    let mut due = s.work_due();
    for e in es {
        let (n, a) = advance(s, e);
        s = n;
        said.extend(a.says.iter().map(text));
        due = a.work;
    }
    (said, due)
}

fn start(sounds: bool, cleanup: bool) -> RunState {
    RunState::new(true, sounds, cleanup, "o/m.fbx", "o/_work")
}

fn opened(extracted: bool) -> Event {
    Event::Opened { kind: "zip".to_string(), entries: 3, extracted }
}

fn orders() -> Vec<Order> {
    ["a", "body"]
        .iter()
        .map(|m| Order { model: m.to_string(), anims: Vec::new() })
        .collect()
}

fn resolved() -> Event {
    Event::Resolved {
        notes: vec![Note::Info("one".to_string()), Note::Warn("two".to_string())],
        orders: orders(),
        body: "body".to_string(),
    }
}

fn patched() -> Event {
    Event::Patched {
        usual: Ok(9),
        made: 0,
        missing: Vec::new(),
        marked: 4,
        unpainted: Some("skin".to_string()),
    }
}

fn assembled() -> Event {
    Event::Assembled { summary: "2 meshes".to_string(), size: Ok("fbx: 1.0 MB".to_string()) }
}

#[test]
fn a_conversion_runs_its_course() {
    let (said, due) = tell(
        start(false, false),
        vec![
            Event::Found(false),
            opened(true),
            resolved(),
            Event::Ready("pix".to_string()),
            Event::Rejected("no".to_string()),
            Event::Converted,
            Event::Staged(2),
            patched(),
            assembled(),
        ],
    );
    assert_eq!(due, Work::Nothing);
    assert_eq!(
        said,
        vec![
            "== Extracting archive",
            "zip - 3 entries",
            "already extracted, reusing",
            "== Resolving vehicle definition",
            "one",
            "! two",
            "== Converting models to mid-format",
            "! ConverterPIX refused a: no",
            "2 animation files staged next to their model",
            "== Patching missing textures and normal maps",
            "9 placeholder textures for the usual base-game files",
            "4 normal-map .tobj marked tsnormal",
            "! paint job texture skin is not in this archive",
            "== Assembling the model",
            "2 meshes",
            "fbx: 1.0 MB",
            "working files kept in o/_work",
            "DONE o/m.fbx",
        ]
    );
}

#[test]
fn what_is_there_already_is_not_converted_again() {
    let (said, due) = tell(start(false, false), vec![Event::Found(true), opened(false)]);
    assert_eq!(due, Work::Nothing);
    assert_eq!(said, vec!["already converted, skipping (o/m.fbx)", "DONE o/m.fbx"]);
    let s = RunState::new(false, false, false, "o/m.fbx", "o/_work");
    assert_eq!(tell(s, vec![Event::Found(true)]).1, Work::Open);
}

#[test]
fn sound_comes_before_the_vehicle() {
    let mut report = Report::new();
    report.copied = 2;
    let (said, due) = tell(
        start(true, false),
        vec![
            Event::Found(false),
            opened(false),
            Event::Extracted { named: 5, recovered: 2, dumped: 1 },
            Event::Sounded { report, encoder: false },
        ],
    );
    assert_eq!(due, Work::Resolve);
    assert_eq!(said[2], "5 named + 2 recovered by deep scan, 1 written under their hash");
    assert_eq!(said[3], "== Extracting sound");
    assert!(said[4].starts_with("! ffmpeg not found"));
    assert_eq!(said[6], "== Resolving vehicle definition");
    // sound that fails is no reason to stop
    let (said, due) = tell(
        start(true, false),
        vec![Event::Found(false), opened(true), Event::Failed("disk".to_string())],
    );
    assert_eq!(due, Work::Resolve);
    assert_eq!(said[4], "! could not extract sound: disk");
}

#[test]
fn a_conversion_stops_where_it_cannot_go_on() {
    let before = || vec![Event::Found(false), opened(true)];
    let failed = |m: &str| Event::Failed(m.to_string());
    let end = |mut more: Vec<Event>| {
        let mut es = before();
        es.append(&mut more);
        // nothing is said behind the end
        es.push(Event::Found(false));
        es.push(failed("again"));
        let (said, due) = tell(start(false, true), es);
        assert_eq!(due, Work::Nothing);
        said.last().unwrap().clone()
    };
    let (said, _) = tell(start(false, false), vec![Event::Found(false), failed("bad")]);
    assert_eq!(said.last().unwrap(), "ERROR bad");
    assert_eq!(
        end(vec![Event::Refused { notes: Vec::new(), error: "none".to_string() }]),
        "ERROR none"
    );
    assert_eq!(end(vec![resolved(), failed("no pix")]), "ERROR no pix");
    let ready = || Event::Ready("pix".to_string());
    assert_eq!(
        end(vec![resolved(), ready(), Event::CannotRun("gone".to_string())]),
        "ERROR cannot run pix: gone"
    );
    assert_eq!(
        end(vec![
            resolved(),
            ready(),
            Event::Converted,
            Event::Rejected("x".to_string()),
            Event::Staged(0)
        ]),
        "ERROR the body model \"body\" could not be converted - there is nothing to import"
    );
    let all = || vec![resolved(), ready(), Event::Converted, Event::Converted, Event::Staged(0)];
    let mut es = all();
    es.extend([patched(), failed("full")]);
    assert_eq!(end(es), "ERROR could not write the FBX: full");
    let mut es = all();
    es.extend([patched(), assembled(), failed("busy")]);
    assert_eq!(end(es), "DONE o/m.fbx");
    let mut es = all();
    es.extend([patched(), assembled(), Event::Removed]);
    assert_eq!(end(es), "DONE o/m.fbx");
}

#[test]
fn events_out_of_turn_change_nothing() {
    let (s, a) = advance(start(false, false), Event::Converted);
    assert!(a.says.is_empty());
    assert_eq!(a.work, Work::Look);
    assert!(s.stage == Stage::Looking);
}
