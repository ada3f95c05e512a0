use scs2fbx::assemble::{
    arrange, best_fit, complaints, greater, interior_at, is_wheel_locator, notes_on, paint_mask,
    places_for_extra, places_for_interior, Candidate, Fit, Layout, Measured, Place,
};
use scs2fbx::conversion::{
    animation_moves, body_converted, body_error, converter_args, failure_line, orders, refusal_note,
};
use scs2fbx::fittings::{interiors, main_models, resolve_extras, ExtraModel, MainModel};
use scs2fbx::livery::{color_spellings, find_paint_job, find_wheels, parse_color, PaintJob, Wheels};
use scs2fbx::pim::{Decimals, Locator, Model};
use scs2fbx::pipeline::{
    choose_interior, choose_vehicle, extracted_dir, resolve, work_dir, Note, Refused, Resolved,
};
use scs2fbx::pit::Trait;
use scs2fbx::scene::{Loader, Sources};
use scs2fbx::tree::Tree;
use scs2fbx::vehicle::{find_vehicles, rel_to_def, resolve_accessories, strip_ext, Accessory};

#[test]
fn wheel_locator_names() {
    assert!(is_wheel_locator("wheel_f_0_0"));
    assert!(is_wheel_locator("wheel_r_3_2"));
    assert!(is_wheel_locator("wheel_r_0"));
    assert!(!is_wheel_locator("swheel"));
    assert!(!is_wheel_locator("wheel_x_0"));
    assert!(!is_wheel_locator("wheel_f"));
    assert!(!is_wheel_locator("wheel_f_0_0_0"));
}

#[test]
fn wheel_numbers_are_digits() {
    assert!(!is_wheel_locator("wheel_f_"));
    assert!(!is_wheel_locator("wheel_f_a"));
    assert!(!is_wheel_locator("wheel_f_0_"));
    assert!(is_wheel_locator("wheel_f_12_345"));
}

fn words(v: &[&str]) -> Vec<String> {
    v.iter().map(|s| s.to_string()).collect()
}

/// A truck with a cabin and a chassis, one interior, a default bumper, a free
/// mirror slot, a slot without a model, and two paint jobs.
fn truck() -> Tree {
    let mut t = Tree::new();
    let mut put = |p: &str, s: &str| t.add_file(p, s.as_bytes().to_vec());
    let dir = "def/vehicle/truck/brand.model";
    put(
        &format!("{dir}/data.sii"),
        "SiiNunit\n{\naccessory_truck_data : brand.model.data\n{\n\trequire[]: \"horn\"\n}\n}\n",
    );
    put(
        &format!("{dir}/cabin/high.sii"),
        "SiiNunit\n{\nx : y\n{\n\tdetail_model: \"/vehicle/truck/m/cabin.pmd\"\n\tvariant: tall\n\
         \tdefaults[]: \"/def/vehicle/truck/brand.model/accessory/bumper/b.sii\"\n\
         \twiper_model: \"/vehicle/truck/m/wiper.pmd\"\n\twiper_anim: \"/vehicle/truck/a/wiper.pma\"\n}\n}\n",
    );
    put(
        &format!("{dir}/chassis/long.sii"),
        "SiiNunit\n{\nx : y\n{\n\tdetail_model: \"/vehicle/truck/m/chassis.pmd\"\n}\n}\n",
    );
    put(
        &format!("{dir}/interior/lux.sii"),
        "SiiNunit\n{\nx : y\n{\n\tdetail_model: \"/vehicle/truck/m/int.pmd\"\n\tvariant: leather\n}\n}\n",
    );
    put(
        &format!("{dir}/accessory/bumper/a.sii"),
        "SiiNunit\n{\nx : y\n{\n\texterior_model: \"/vehicle/truck/m/bumper_a.pmd\"\n}\n}\n",
    );
    put(
        &format!("{dir}/accessory/bumper/b.sii"),
        "SiiNunit\n{\nx : y\n{\n\texterior_model: \"/vehicle/truck/m/bumper_b.pmd\"\n\tvariant: red\n}\n}\n",
    );
    put(
        &format!("{dir}/accessory/mirror/m.sii"),
        "SiiNunit\n{\nx : y\n{\n\texterior_model: \"/vehicle/truck/m/mirror.pmd\"\n\
         \tinterior_model: \"/vehicle/truck/m/mirror.pmd\"\n}\n}\n",
    );
    put(
        &format!("{dir}/paint_job/plain.sii"),
        "SiiNunit\n{\nx : y\n{\n\tpaint_job_mask: \"/vehicle/truck/p/plain.tobj\"\n\tbase_color: (0.5, 0.25, 1)\n}\n}\n",
    );
    put(
        &format!("{dir}/paint_job/zebra.sii"),
        "SiiNunit\n{\nx : y\n{\n\tpaint_job_mask: \"/vehicle/truck/p/zebra.tobj\"\n\tairbrush: true\n}\n}\n",
    );
    t
}

#[test]
fn vehicles_are_found_with_their_parts() {
    let t = truck();
    let v = find_vehicles(&t);
    assert_eq!(v.len(), 1);
    assert_eq!(v[0].name, "brand.model");
    assert_eq!(v[0].cabins, words(&["high"]));
    assert_eq!(v[0].chassis, words(&["long"]));
    assert_eq!(v[0].required, words(&["horn"]));
    assert_eq!(choose_vehicle(&v, "other"), Some(0));
    assert_eq!(choose_vehicle(&Vec::new(), "other"), None);
}

#[test]
fn slots_are_filled_once_and_files_mounted_once() {
    let t = truck();
    let v = find_vehicles(&t);
    let (a, w) = resolve_accessories(&t, &v[0], "high", "long");
    let got: Vec<(&str, &str, &str)> =
        a.iter().map(|x| (x.slot.as_str(), x.kind, x.model.as_str())).collect();
    assert_eq!(
        got,
        vec![
            // the default wins over the first file of the slot
            ("bumper", "exterior", "/vehicle/truck/m/bumper_b"),
            ("mirror", "exterior", "/vehicle/truck/m/mirror"),
        ]
    );
    assert_eq!(a[0].variant, "red");
    assert_eq!(
        w,
        words(&[
            "required slot \"horn\" has no model",
            "slot \"mirror\": interior_model is the same file as exterior_model, imported once",
        ])
    );
}

#[test]
fn references_lead_into_the_own_folder() {
    let dir = words(&["def", "vehicle", "truck", "k"]);
    let at = |tail: &[&str]| [&dir[..], &words(tail)[..]].concat();
    // the name of the folder also ends another one on the way
    assert_eq!(rel_to_def(&dir, "/def/vehicle/truck/k/a"), at(&["a"]));
    assert_eq!(
        rel_to_def(&dir, "/def/vehicle/truck/k/accessory/roof/shape2.sii"),
        at(&["accessory", "roof", "shape2.sii"])
    );
    assert_eq!(rel_to_def(&dir, "k/a.sii"), at(&["a.sii"]));
    assert_eq!(rel_to_def(&dir, "a.sii"), at(&["a.sii"]));
}

#[test]
fn extensions_are_stripped() {
    assert_eq!(strip_ext(" /a/b.pmd "), "/a/b");
    assert_eq!(strip_ext("/a/b.pmg"), "/a/b");
    assert_eq!(strip_ext("/a/b.sii"), "/a/b.sii");
}

#[test]
fn the_vehicle_is_resolved() {
    let t = truck();
    let files = words(&[
        "vehicle/truck/wheels/front_disc.pmg",
        "vehicle/truck/wheels/rear_disc.pmg",
        "vehicle/truck/wheels/tire.pmg",
    ]);
    let r = match resolve(&t, &files, "", "high", "long", "") {
        Ok(r) => r,
        Err(e) => panic!("{}", e.error),
    };
    let roles: Vec<&str> = r.main.iter().map(|m| m.role).collect();
    assert_eq!(roles, vec!["exterior", "cabin", "interior"]);
    assert_eq!(r.main[1].variants, words(&["tall"]));
    assert_eq!(r.body, r.main[0].model);
    assert_eq!(r.accessories.len(), 2);
    assert_eq!(r.extras.len(), 1);
    assert_eq!(r.extras[0].name, "wipers");
    assert_eq!(r.extras[0].kind, "cabin");
    assert!(r.wheels.rim_front.is_some());
    // the airbrush job is preferred
    assert_eq!(r.paint.as_ref().map(|p| p.name.as_str()), Some("zebra"));
    let first: Vec<String> = r
        .notes
        .iter()
        .map(|n| match n {
            Note::Info(s) => format!("i {s}"),
            Note::Warn(s) => format!("w {s}"),
        })
        .collect();
    assert_eq!(first[0], "w required slot \"horn\" has no model");
    assert_eq!(first[2], "i interior \"lux\" (variant \"leather\")");
    assert!(first.contains(&"i 2 accessories to mount".to_string()));
    assert!(first.last().unwrap().starts_with("i paint job \"zebra\" (airbrush): "));
}

#[test]
fn refusals_say_what_is_missing() {
    let text = |r: Result<Resolved, Refused>| match r {
        Ok(_) => String::new(),
        Err(e) => e.error,
    };
    assert_eq!(
        text(resolve(&Tree::new(), &Vec::new(), "", "", "", "")),
        "no truck definition found in this archive"
    );
    assert_eq!(
        text(resolve(&truck(), &Vec::new(), "", "high", "short", "")),
        "chassis \"short\" names no model - it has neither a `model:` nor a `detail_model:` line"
    );
}

#[test]
fn what_moves_on_the_cabin_goes_to_the_chassis_without_one() {
    let t = truck();
    match resolve(&t, &Vec::new(), "brand.model", "none", "long", "lux") {
        Ok(r) => {
            assert!(r.main.iter().all(|m| m.role != "cabin"));
            assert!(r.extras.iter().all(|e| e.kind != "cabin"));
            // no wheels at all
            assert!(r.notes.iter().any(
                |n| matches!(n, Note::Warn(s) if s.starts_with("no wheel models in this archive"))
            ));
        }
        Err(e) => panic!("{}", e.error),
    }
}

#[test]
fn interiors_go_by_variant_or_file() {
    let t = truck();
    let v = find_vehicles(&t);
    let i = interiors(&t, &v[0]);
    assert_eq!(i.len(), 1);
    assert_eq!(choose_interior(&i, "leather"), Some(0));
    assert_eq!(choose_interior(&i, "lux"), Some(0));
    assert_eq!(choose_interior(&i, "cloth"), Some(0));
    assert_eq!(choose_interior(&Vec::new(), "lux"), None);
    let m = main_models(&t, &v[0], "high", "long", Some(&i[0].sii));
    assert_eq!(m.len(), 3);
    assert_eq!(resolve_extras(&t, &v[0], "high", "long", None).len(), 1);
}

#[test]
fn colours_are_read_from_their_spelling() {
    let s = "(0.5, 0.25, 1)";
    let mut t = Decimals::new();
    for w in color_spellings(s) {
        let bits = w.parse::<f32>().unwrap().to_bits();
        t.insert(w, bits);
    }
    assert_eq!(
        parse_color(s, &t),
        Some((0.5f32.to_bits(), 0.25f32.to_bits(), 1.0f32.to_bits()))
    );
    assert_eq!(parse_color("(0.5, 0.25)", &t), None);
}

#[test]
fn an_airbrush_job_wins() {
    let t = truck();
    let v = find_vehicles(&t);
    let p = find_paint_job(&t, &v[0].def_dir).unwrap();
    assert!(p.airbrush);
    assert_eq!(p.name, "zebra");
    assert_eq!(paint_mask(&p), format!("/{}", p.mask.trim_start_matches('/')));
    assert!(find_paint_job(&Tree::new(), &v[0].def_dir).is_none());
}

#[test]
fn wheels_are_found_by_their_words() {
    let w = find_wheels(&words(&["vehicle/truck/x/tire.pmg", "vehicle/truck/x/body.pmg"]));
    assert!(w.tyre.is_some());
    let none = find_wheels(&Vec::new());
    assert!(none.tyre.is_none() && none.rim_front.is_none() && none.rim_rear.is_none());
}

// -------------------------------------------------------------- layout ---

#[test]
fn floats_are_ordered_by_their_bits() {
    let g = |a: f32, b: f32| greater(a.to_bits(), b.to_bits());
    assert!(g(1.0, 0.5));
    assert!(g(0.0, -1.0));
    assert!(g(-0.5, -1.0));
    assert!(!g(-1.0, -0.5));
    assert!(!g(0.0, -0.0));
    assert!(!g(-0.0, 0.0));
    assert!(!g(f32::NAN, 0.0));
    assert!(!g(1.0, f32::NAN));
    assert!(g(f32::INFINITY, f32::MAX));
}

fn candidate(label: &'static str, score: Option<f32>) -> Candidate {
    Candidate { label, score: score.map(|s| s.to_bits()) }
}

#[test]
fn the_best_fit_is_picked() {
    let c = vec![candidate("interior", Some(0.25)), candidate("body", Some(0.75))];
    let f = best_fit(true, &c);
    assert_eq!(f.index, Some(1));
    assert_eq!(f.label, "body");
    assert_eq!(f32::from_bits(f.score), 0.75);
    // equal scores: the first
    let c = vec![candidate("interior", Some(0.5)), candidate("body", Some(0.5))];
    assert_eq!(best_fit(true, &c).label, "interior");
    // nothing measured, or no body
    let c = vec![candidate("interior", None), candidate("body", None)];
    let f = best_fit(true, &c);
    assert_eq!((f.index, f.label, f.score), (Some(0), "declared", 0));
    let c = vec![candidate("interior", Some(0.1)), candidate("body", Some(0.9))];
    assert_eq!(best_fit(false, &c).index, Some(0));
    assert_eq!(best_fit(true, &Vec::new()).index, None);
}

fn model_with(names: &[&str]) -> Model {
    let mut m = Model::new();
    for n in names {
        let mut l = Locator::new();
        l.name = n.to_string();
        m.locators.push(l);
    }
    m
}

fn main_model(role: &'static str, model: &str) -> MainModel {
    MainModel { role, model: model.to_string(), variants: Vec::new() }
}

fn accessory(slot: &str, kind: &'static str) -> Accessory {
    Accessory {
        slot: slot.to_string(),
        kind,
        model: format!("/acc/{slot}"),
        sii: String::new(),
        variant: "v".to_string(),
    }
}

fn place(p: &Place) -> String {
    match p {
        Place::Body => "body".to_string(),
        Place::Exterior(i) => format!("ext{i}"),
        Place::Cabin(i) => format!("cab{i}"),
        Place::Interior(i) => format!("int{i}"),
    }
}

fn loader() -> Loader {
    let mut l = Loader::new();
    let mut put = |name: &str, m: Model| {
        l.models.insert(name.to_string(), Some((m, Trait::new())));
    };
    put("ext", model_with(&["interior", "bumper", "wheel_r_0", "wheel_f_0", "bumper"]));
    put("cab", model_with(&["bumper", "mirror"]));
    put("int", model_with(&["seat", "mirror"]));
    l
}

fn measured(fit: Fit, percent: &str) -> Measured {
    Measured { fit, percent: percent.to_string() }
}

#[test]
fn a_vehicle_is_arranged() {
    let l = loader();
    let layout = Layout {
        variants_row: false,
        models: vec![
            main_model("exterior", "ext"),
            main_model("cabin", "cab"),
            main_model("interior", "int"),
        ],
        accessories: vec![
            accessory("bumper", "exterior"),
            accessory("seat", "exterior"),
            accessory("seat", "interior"),
            accessory("mirror", "exterior"),
        ],
        extras: vec![ExtraModel {
            name: "wiper".to_string(),
            kind: "cabin",
            model: "/w".to_string(),
            anims: Vec::new(),
            variants: Vec::new(),
        }],
        wheels: Wheels {
            rim_front: Some("rim_f".to_string()),
            rim_rear: None,
            tyre: Some("tyre".to_string()),
        },
        paint: Some(PaintJob {
            name: "red".to_string(),
            mask: "/p".to_string(),
            base_color: None,
            airbrush: false,
        }),
    };
    let spaces = places_for_interior(&l, &layout.models);
    assert_eq!(spaces.len(), 2);
    assert_eq!(spaces[0].0, "interior");
    assert_eq!(place(&spaces[0].1), "ext0");
    let fit = best_fit(true, &vec![candidate("interior", Some(1.0)), candidate("body", Some(0.5))]);
    let at = interior_at(&l, &layout.models, &fit);
    assert_eq!(place(&at), "ext0");
    assert_eq!(places_for_extra(&layout.models, at).len(), 2);
    let extra = best_fit(true, &vec![candidate("body", Some(0.5)), candidate("interior", Some(0.25))]);
    let a = arrange(&l, &layout, &measured(fit, "100"), &vec![measured(extra, "50")]);
    let got: Vec<(String, String)> =
        a.instances.iter().zip(&a.places).map(|(i, p)| (i.name.clone(), place(p))).collect();
    let want: Vec<(String, String)> = [
        ("exterior", "body"),
        ("cabin", "body"),
        ("interior", "ext0"),
        ("anim_wiper", "body"),
        // the first bumper wins over the later ones
        ("acc_bumper_exterior", "ext1"),
        // there is no seat outside, so only the inner one is mounted
        ("acc_seat_interior", "int0"),
        ("acc_mirror_exterior", "cab1"),
        ("wheel0_wheel_f_0", "ext3"),
        ("wheel1_wheel_f_0", "ext3"),
        ("wheel0_wheel_r_0", "ext2"),
    ]
    .iter()
    .map(|(a, b)| (a.to_string(), b.to_string()))
    .collect();
    assert_eq!(got, want);
    assert_eq!(a.instances[4].variants, words(&["v"]));
    assert_eq!(
        a.notes,
        words(&[
            "interior placed in interior space (100% inside the body)",
            "extra \"wiper\" placed in body space (50%)",
            "accessories mounted: 3",
            "wheels: 2 locators, 3 parts",
            "paint job \"red\" on the bodywork",
        ])
    );
}

#[test]
fn a_bare_vehicle_is_arranged() {
    let l = Loader::new();
    let layout = Layout {
        variants_row: false,
        models: vec![main_model("exterior", "ext")],
        accessories: Vec::new(),
        extras: Vec::new(),
        wheels: Wheels { rim_front: None, rim_rear: None, tyre: None },
        paint: None,
    };
    let fit = best_fit(false, &Vec::new());
    let a = arrange(&l, &layout, &measured(fit, "0"), &Vec::new());
    assert_eq!(a.instances.len(), 1);
    assert_eq!(a.notes, words(&["accessories mounted: 0"]));
}

#[test]
fn a_loader_reads_once() {
    let mut l = Loader::new();
    let nothing = Sources { pim: None, pmg: None, pit: None, decimals: Decimals::new() };
    assert!(!l.knows("m"));
    assert!(l.get("m", &nothing).is_none());
    assert!(l.knows("m"));
    // what came of the first reading is kept
    let something = Sources {
        pim: Some("Part {\nName: \"p\"\n}\n".to_string()),
        pmg: None,
        pit: None,
        decimals: Decimals::new(),
    };
    assert!(l.get("m", &something).is_none());
    let m = l.get("other", &something).unwrap();
    assert_eq!(m.0.parts.len(), 1);
    // the geometry itself, where there is no mid-format
    let mut b = vec![0u8; 200];
    b[0] = 0x15;
    b[1..4].copy_from_slice(b"gmP");
    let raw = Sources { pim: None, pmg: Some(b), pit: None, decimals: Decimals::new() };
    assert!(l.get("raw", &raw).is_some());
    assert!(l.peek("raw").is_some());
    assert!(l.peek("unknown").is_none());
}

// ---------------------------------------------------------- conversion ---

fn resolved() -> Resolved {
    Resolved {
        main: vec![main_model("exterior", "vehicle/b")],
        accessories: vec![accessory("z", "exterior"), accessory("z", "interior")],
        extras: vec![
            ExtraModel {
                name: "w".to_string(),
                kind: "cabin",
                model: "/vehicle/w/wiper".to_string(),
                anims: words(&["/vehicle/anim/b.pma"]),
                variants: Vec::new(),
            },
            ExtraModel {
                name: "w".to_string(),
                kind: "cabin",
                model: "/vehicle/w/wiper".to_string(),
                anims: words(&["/vehicle/anim/a.pma"]),
                variants: Vec::new(),
            },
        ],
        wheels: Wheels { rim_front: Some("/r".to_string()), rim_rear: None, tyre: None },
        paint: None,
        body: "vehicle/b".to_string(),
        notes: Vec::new(),
    }
}

#[test]
fn each_model_is_ordered_once() {
    let r = resolved();
    let o = orders(&r);
    let names: Vec<&str> = o.iter().map(|x| x.model.as_str()).collect();
    assert_eq!(names, vec!["acc/z", "r", "vehicle/b", "vehicle/w/wiper"]);
    // the first in the dictionary of the two animation lists
    assert_eq!(o[3].anims, words(&["/vehicle/anim/a.pma"]));
    assert_eq!(converter_args(&o[3]), words(&["/vehicle/w/wiper", "/vehicle/anim/a.pma"]));
    assert!(body_converted(&o, &vec![false, false, true, false], "vehicle/b"));
    assert!(!body_converted(&o, &vec![true, true, false, true], "vehicle/b"));
    assert!(!body_converted(&o, &Vec::new(), "vehicle/b"));
}

#[test]
fn answers_of_the_converter_are_told() {
    assert_eq!(failure_line("one\ntwo\n"), "two");
    assert_eq!(failure_line(""), "failed");
    assert_eq!(refusal_note("m", "why"), "ConverterPIX refused m: why");
    assert_eq!(
        body_error("m"),
        "the body model \"m\" could not be converted - there is nothing to import"
    );
}

#[test]
fn animations_go_next_to_their_model() {
    let r = resolved();
    let m = animation_moves(&r.extras);
    assert_eq!(m.len(), 2);
    assert_eq!(m[0].from, words(&["vehicle", "anim", "b.pma"]));
    assert_eq!(m[0].to, words(&["vehicle", "w"]));
}

#[test]
fn working_folders_lie_below_the_output() {
    assert_eq!(work_dir("out"), "out/_work");
    assert_eq!(work_dir("out/"), "out/_work");
    assert_eq!(work_dir(""), "_work");
    assert_eq!(extracted_dir("out"), "out/_work/extracted");
}

#[test]
fn finished_scenes_are_summed_up() {
    let s = scs2fbx::scene::Stats {
        instances: 1,
        meshes: 2,
        tris: 3,
        duplicates_dropped: 4,
        duplicate_tris: 5,
        shadow_dropped: 6,
        spare_meshes: 7,
        spare_slots: 8,
        missing_models: Vec::new(),
    };
    assert_eq!(
        notes_on(&s),
        words(&[
            "8 unworn variant(s) parked beside the vehicle (7 meshes)",
            "2 meshes, 3 tris, 4 duplicates dropped (5 tris), 6 shadow proxies dropped",
        ])
    );
    assert_eq!(complaints(&words(&["a"])), words(&["model not converted: a"]));
}
