use scs2fbx::dds::{dds_force_opaque, dds_from_dx10};
use scs2fbx::fbx::{encode_array, p70_c3, p70_d, p70_i, p70_s, pick_array, Ids, Node, Prop};
use scs2fbx::fbxscene::{self, write_file, PAINT_UV};
use scs2fbx::matfile::{
    base_tobj, image_path, mark_normal_map, mentions, normal_maps, placeholder_level, placeholders,
    referenced, shader, stand_in_note,
};
use scs2fbx::naming::{folder_name, output_stem, safe_name};
use scs2fbx::pim::{Model, Part, Piece};
use scs2fbx::pit::{Material, Trait};
use scs2fbx::png::{crc32, flat_png, wrap_png};
use scs2fbx::scene::{build, plan, Coat, Instance, Loader, Scene, Surface};
use scs2fbx::session::{Action, Msg, Phase, Session, Settings, Tone};
use scs2fbx::sounds::{
    copy_instead, holds_audio, notes, plan_flat, plan_tree, samples, Report, Tally, Task,
};
use scs2fbx::staging::{flat_name, treat, Staging, Tried};
use scs2fbx::vehicle::VehicleDef;
use std::io::Read;

fn words(v: &[&str]) -> Vec<String> {
    v.iter().map(|s| s.to_string()).collect()
}

// ---------------------------------------------------------------- scene ---

fn piece(material: usize) -> Piece {
    let mut p = Piece::new();
    p.material = material;
    p.positions = vec![(0, 0, 0), (1, 0, 0), (0, 1, 0)];
    p.tris = vec![(0, 1, 2)];
    p
}

fn part(name: &str, pieces: Vec<usize>) -> Part {
    let mut p = Part::new();
    p.name = name.to_string();
    p.pieces = pieces;
    p
}

fn material(effect: &str, texture: &str) -> Material {
    let mut m = Material::new();
    m.effect = effect.to_string();
    if !texture.is_empty() {
        m.textures = words(&[texture]);
    }
    m
}

/// A truck of three pieces: a painted panel, a roof that only the tall variant
/// has, and a shadow.
fn truck() -> Loader {
    let mut m = Model::new();
    m.materials = words(&["paint", "plain", "shade"]);
    let mut panel = piece(0);
    panel.uv1 = vec![(0, 0), (0, 0), (0, 0)];
    m.pieces = vec![panel, piece(1), piece(2)];
    m.parts = vec![part("roof", vec![1])];
    let mut t = Trait::new();
    t.materials.insert("paint".to_string(), material("eut2.truckpaint", "/base"));
    t.materials.insert("plain".to_string(), material("eut2.glass", "/plain"));
    t.materials.insert("shade".to_string(), material("eut2.shadowonly", ""));
    let mut tall = scs2fbx::harvest::Names::new();
    tall.add("roof");
    t.variants.push(("tall".to_string(), tall));
    t.variants.push(("low".to_string(), scs2fbx::harvest::Names::new()));
    let mut l = Loader::new();
    l.models.insert("truck".to_string(), Some((m, t)));
    l
}

fn instance(model: &str, variants: &[&str]) -> Instance {
    Instance { name: "body".to_string(), model: model.to_string(), variants: words(variants) }
}

fn coat(mask: Option<&str>) -> Coat {
    Coat { mask: mask.map(|s| s.to_string()), base: (1, 2, 3) }
}

fn at(n: i32) -> Vec<(i32, i32, i32)> {
    vec![(n, 0, 0), (n, 1, 0)]
}

fn names(s: &Scene) -> Vec<&str> {
    s.meshes.iter().map(|m| m.name.as_str()).collect()
}

#[test]
fn the_named_variant_is_worn() {
    let l = truck();
    let i = vec![instance("truck", &["tall"]), instance("nothing", &[])];
    let p = plan(&l, &i, false);
    assert_eq!(p.warnings.len(), 0);
    assert_eq!(p.missing, words(&["nothing"]));
    assert_eq!(p.shadows, 1);
    let passes = p.passes[0].as_ref().unwrap();
    assert_eq!(passes.len(), 1);
    assert_eq!(passes[0].pieces, vec![0, 1]);
    let s = build(&l, &i, false, &vec![at(0), at(1)], &coat(None));
    assert_eq!(names(&s), vec!["body_0", "body_1"]);
    assert_eq!(s.stats.meshes, 2);
    assert_eq!(s.stats.instances, 1);
    assert_eq!(s.stats.tris, 2);
    assert_eq!(s.stats.shadow_dropped, 1);
    assert_eq!(s.stats.missing_models, words(&["nothing"]));
}

#[test]
fn a_model_with_variants_shows_one_of_them() {
    let l = truck();
    // none named: the first in the dictionary, which has no roof
    let p = plan(&l, &vec![instance("truck", &[])], false);
    assert_eq!(p.passes[0].as_ref().unwrap()[0].pieces, vec![0]);
    assert!(p.warnings.is_empty());
    // one that is not there: the same, with a warning
    let p = plan(&l, &vec![instance("truck", &["wide", "flat"])], false);
    assert_eq!(p.passes[0].as_ref().unwrap()[0].pieces, vec![0]);
    assert_eq!(
        p.warnings,
        words(&["body: variant [\"wide\", \"flat\"] not in this model, using \"low\" of 2"])
    );
}

#[test]
fn unworn_variants_stand_in_a_row() {
    let l = truck();
    let i = vec![instance("truck", &["low"]), instance("truck", &["low"])];
    let p = plan(&l, &i, true);
    let passes = p.passes[1].as_ref().unwrap();
    assert_eq!(passes.len(), 2);
    assert_eq!(passes[1].suffix, "_alt_tall");
    // one place for one variant of one model
    assert_eq!(passes[1].slot, Some(0));
    assert_eq!(p.slots.list, words(&["truck|tall"]));
    // what the vehicle wears in place is not parked again
    assert_eq!(passes[0].pieces, vec![0]);
    assert_eq!(passes[1].pieces, vec![1]);
    let places = vec![at(0), at(6), at(0), at(6)];
    let s = build(&l, &i, true, &places, &coat(None));
    assert_eq!(names(&s), vec!["body_0", "body_alt_tall_1"]);
    assert_eq!(s.stats.spare_meshes, 1);
    assert_eq!(s.stats.spare_slots, 1);
    // the second instance stands where the first does
    assert_eq!(s.stats.duplicates_dropped, 2);
    assert_eq!(s.stats.duplicate_tris, 2);
}

#[test]
fn the_livery_goes_over_painted_panels() {
    let l = truck();
    let i = vec![instance("truck", &["tall"])];
    let s = build(&l, &i, false, &vec![at(0), at(1)], &coat(Some("/mask")));
    assert_eq!(s.surfaces.len(), 2);
    let paint = &s.surfaces[s.meshes[0].material];
    assert_eq!(paint.name, "paint");
    assert_eq!(paint.texture, Some("/mask".to_string()));
    assert_eq!(paint.uv_set, PAINT_UV);
    assert_eq!(paint.diffuse, (1, 2, 3));
    assert!(s.meshes[0].painted);
    let glass = &s.surfaces[s.meshes[1].material];
    assert_eq!(glass.texture, Some("/plain".to_string()));
    assert_eq!(glass.uv_set, "UVMap");
    assert!(glass.wants_alpha);
    // without a livery the panel keeps its own texture
    let s = build(&l, &i, false, &vec![at(0), at(1)], &coat(None));
    assert_eq!(s.surfaces[0].texture, Some("/base".to_string()));
    assert!(!s.meshes[0].painted);
}

#[test]
fn unknown_materials_are_white() {
    let mut m = Model::new();
    m.pieces = vec![piece(7)];
    let mut l = Loader::new();
    l.models.insert("m".to_string(), Some((m, Trait::new())));
    let s = build(&l, &vec![instance("m", &[])], false, &vec![at(0)], &coat(None));
    assert_eq!(s.surfaces[0].name, "material");
    assert_eq!(s.surfaces[0].texture, None);
    let one = 1.0f32.to_bits();
    assert_eq!(s.surfaces[0].diffuse, (one, one, one));
}

// ------------------------------------------------------------- textures ---

fn dds(fourcc: &[u8; 4], data: &[u8]) -> Vec<u8> {
    let mut b = vec![0u8; 128];
    b[0..4].copy_from_slice(b"DDS ");
    b[84..88].copy_from_slice(fourcc);
    b.extend_from_slice(data);
    b
}

fn dx10(format: u32, data: &[u8]) -> Vec<u8> {
    let mut b = dds(b"DX10", &[]);
    b.extend_from_slice(&format.to_le_bytes());
    b.extend_from_slice(&[0u8; 16]);
    b.extend_from_slice(data);
    b
}

#[test]
fn new_headers_become_old_ones() {
    for (format, code) in [
        (71u32, b"DXT1"),
        (74, b"DXT3"),
        (78, b"DXT5"),
        (80, b"ATI1"),
        (83, b"ATI2"),
    ] {
        let v = dds_from_dx10(&dx10(format, &[1, 2, 3])).unwrap();
        assert_eq!(v, dds(code, &[1, 2, 3]));
        assert!(dds_from_dx10(&v).is_none());
    }
    assert!(dds_from_dx10(&dx10(98, &[1])).is_none());
    assert!(dds_from_dx10(&dds(b"DXT5", &[0; 40])).is_none());
    assert!(dds_from_dx10(&[0; 200]).is_none());
}

#[test]
fn alpha_is_forced_opaque() {
    let data: Vec<u8> = (0..40).collect();
    let mut b = dds(b"DXT5", &data);
    assert!(dds_force_opaque(&mut b));
    assert_eq!(&b[128..136], &[255, 255, 0, 0, 0, 0, 0, 0]);
    // the colour half, and the last block that is not whole
    assert_eq!(&b[136..144], &data[8..16]);
    assert_eq!(&b[160..168], &data[32..40]);
    let once = b.clone();
    assert!(dds_force_opaque(&mut b));
    assert_eq!(b, once);

    let mut b = dds(b"DXT3", &data);
    assert!(dds_force_opaque(&mut b));
    assert_eq!(&b[128..136], &[255u8; 8]);
    assert_eq!(&b[136..144], &data[8..16]);

    let mut b = dds(b"DXT1", &data);
    assert!(!dds_force_opaque(&mut b));
    assert_eq!(&b[128..], &data[..]);

    let mut b = dds(&[0; 4], &data[..6]);
    b[88] = 32;
    b[107] = 255;
    assert!(dds_force_opaque(&mut b));
    assert_eq!(&b[128..134], &[0, 1, 2, 255, 4, 5]);

    let mut b = vec![0u8; 200];
    assert!(!dds_force_opaque(&mut b));
}

#[test]
fn only_dds_is_treated() {
    let t = treat("png", dx10(78, &[7; 16]), false);
    assert!(!t.downgraded && !t.flattened);
    let t = treat("dds", dx10(78, &[7; 16]), false);
    assert!(t.downgraded && t.flattened);
    assert_eq!(t.bytes[128], 255);
    let t = treat("dds", dx10(78, &[7; 16]), true);
    assert!(t.downgraded && !t.flattened);
    assert_eq!(t.bytes[128], 7);
}

fn surface(texture: Option<&str>, wants_alpha: bool) -> Surface {
    Surface {
        name: "m".to_string(),
        diffuse: (0, 0, 0),
        texture: texture.map(|s| s.to_string()),
        wants_alpha,
        uv_set: "UVMap".to_string(),
    }
}

#[test]
fn textures_are_looked_for_in_turn() {
    let v = vec![
        surface(Some("/a/b"), false),
        surface(None, true),
        surface(Some("/a/b"), true),
        surface(Some("c"), false),
        surface(Some("d"), false),
    ];
    let mut s = Staging::new(&v);
    let a = s.next().unwrap();
    assert_eq!(a.path, words(&["a", "b"]));
    assert_eq!((a.second, a.ext, a.out.as_str()), (false, "dds", "a_b.dds"));
    // the window that shares the texture keeps the alpha
    assert!(a.keep_alpha);
    s.tell(Tried::NotThere);
    let a = s.next().unwrap();
    assert_eq!((a.second, a.ext), (false, "tga"));
    s.tell(Tried::Unreadable);
    s.tell(Tried::Handled { downgraded: true, flattened: true, written: false });
    s.tell(Tried::NotThere);
    let a = s.next().unwrap();
    assert_eq!((a.second, a.ext, a.out.as_str()), (true, "dds", "a_b.dds"));
    s.tell(Tried::Handled { downgraded: false, flattened: true, written: true });
    let a = s.next().unwrap();
    assert_eq!(a.path, words(&["c"]));
    assert!(!a.keep_alpha);
    s.tell(Tried::AlreadyOut);
    for _ in 0..8 {
        assert!(s.next().is_some());
        s.tell(Tried::NotThere);
    }
    assert!(s.next().is_none());
    assert_eq!((s.written, s.missing, s.flattened, s.downgraded), (2, 1, 2, 1));
    assert_eq!(s.path_of(&Some("/a/b".to_string())), Some("textures/a_b.dds".to_string()));
    assert_eq!(s.path_of(&Some("c".to_string())), Some("textures/c.dds".to_string()));
    assert_eq!(s.path_of(&Some("d".to_string())), None);
    assert_eq!(s.path_of(&None), None);
    assert_eq!(
        s.warnings(),
        words(&[
            "1 texture(s) referenced by materials are not in this archive",
            "2 texture(s) had their alpha channel forced opaque (it is a specular mask, not transparency)",
            "1 DDS texture(s) rewritten from a DX10 header to legacy FourCC (Blender cannot read DX10)",
        ])
    );
    assert_eq!(flat_name("//a\\b/c"), "a_b_c");
}

// ------------------------------------------------------------- mat files ---

const MAT: &str = "material : \"eut2.dif\"\n{\n\ttexture[0] : \"/a/base.tobj\"\n\
                   \ttexture_name[0] : \"texture_base\"\n\ttexture[1] : \"/a/n.tobj\"\n\
                   \ttexture_name[1] : \"texture_nmap\"\n\ttexture[2] : \"/\"\n\ttexture[3] : \"a/b/\"\n}\n";

#[test]
fn textures_of_a_mat_are_listed() {
    let m = mentions(MAT);
    assert_eq!(m, words(&["/a/base.tobj", "/a/n.tobj"]));
    let mut all = m.clone();
    all.extend(m);
    assert_eq!(referenced(all), words(&["a/base", "a/n"]));
    assert_eq!(normal_maps(MAT), words(&["a/n.tobj"]));
    assert_eq!(shader(MAT), "eut2.dif");
    assert_eq!(base_tobj(MAT), Some("/a/base.tobj".to_string()));
    assert_eq!(base_tobj("x"), None);
    assert_eq!(image_path("\u{1}abc\u{0}/a/b.dds\u{0}xyz"), Some("/a/b.dds".to_string()));
    assert_eq!(image_path("abc"), None);
}

#[test]
fn normal_maps_are_marked_once() {
    let t = mark_normal_map("map 2d x.dds").unwrap();
    assert_eq!(t, "map 2d x.dds\nusage\ttsnormal\n");
    assert_eq!(mark_normal_map("map\n").unwrap(), "map\nusage\ttsnormal\n");
    assert_eq!(mark_normal_map(&t), None);
}

#[test]
fn stand_ins_are_grey() {
    let p = placeholders();
    assert_eq!(p.len(), 14);
    assert_eq!(p[0], ("material/environment/vehicle_reflection".to_string(), 25));
    assert_eq!(p[13], ("vehicle/truck/share/gps".to_string(), 35));
    assert_eq!(placeholder_level("a/MIRROR_glass"), 45);
    assert_eq!(placeholder_level("a/window"), 72);
    assert_eq!(placeholder_level("environment/x"), 25);
    assert_eq!(placeholder_level("a/lamp"), 60);
    assert_eq!(placeholder_level("a/b"), 50);
    assert_eq!(stand_in_note(0, &Vec::new()), None);
    assert_eq!(
        stand_in_note(4, &words(&["a/b", "c", "d/e", "f"])),
        Some("4 more textures referenced but not shipped - filled in (b, c, e...)".to_string())
    );
}

// ------------------------------------------------------------------ png ---

#[test]
fn checksums_are_those_of_crc32() {
    assert_eq!(crc32(b""), 0);
    assert_eq!(crc32(b"123456789"), 0xcbf43926);
    assert_eq!(crc32(b"IEND"), 0xae426082);
}

#[test]
fn a_grey_square_is_written() {
    let b = flat_png(200, 2);
    assert_eq!(&b[0..8], b"\x89PNG\x0d\x0a\x1a\x0a");
    assert_eq!(&b[8..16], b"\x00\x00\x00\x0dIHDR");
    assert_eq!(&b[16..29], &[0, 0, 0, 2, 0, 0, 0, 2, 8, 6, 0, 0, 0]);
    let n = u32::from_be_bytes([b[33], b[34], b[35], b[36]]) as usize;
    assert_eq!(&b[37..41], b"IDAT");
    let mut raw = Vec::new();
    flate2::read::ZlibDecoder::new(&b[41..41 + n]).read_to_end(&mut raw).unwrap();
    assert_eq!(
        raw,
        vec![0, 200, 200, 200, 255, 200, 200, 200, 255, 0, 200, 200, 200, 255, 200, 200, 200, 255]
    );
    assert_eq!(&b[b.len() - 12..], b"\x00\x00\x00\x00IEND\xae\x42\x60\x82");
    assert_eq!(wrap_png(2, &b[41..41 + n]), b);
}

// --------------------------------------------------------------- naming ---

#[test]
fn outputs_get_plain_names() {
    assert_eq!(output_stem(Some("[1.50] Big Truck (v2) - HD_")), "Big Truck - HD");
    assert_eq!(output_stem(Some("a.b,c")), "a b c");
    assert_eq!(output_stem(Some("x]y)z")), "xyz");
    assert_eq!(output_stem(Some("[all gone]")), "vehicle");
    assert_eq!(output_stem(None), "vehicle");
    assert_eq!(output_stem(Some(&"x".repeat(100))).len(), 60);
    assert_eq!(output_stem(Some("Škoda")), "Škoda");
}

#[test]
fn folders_get_plain_names() {
    assert_eq!(folder_name("Bus [1.40]-"), "Bus");
    assert_eq!(folder_name("(x)"), "(x)");
    assert_eq!(safe_name("a b/c-d_e.f"), "a_b_c-d_e.f");
}

// --------------------------------------------------------------- sounds ---

fn task(t: &Task) -> String {
    match t {
        Task::Keep { to } => format!("keep {to}"),
        Task::Decode { to, instead: None } => format!("decode {to}"),
        Task::Decode { to, instead: Some(i) } => format!("decode {to} or {i}"),
        Task::Copy { to } => format!("copy {to}"),
        Task::Encode { to, instead } => format!("encode {to} or {instead}"),
    }
}

#[test]
fn sounds_are_told_by_their_extension() {
    assert!(holds_audio(Some("OGG")));
    assert!(holds_audio(Some("bank")));
    assert!(!holds_audio(Some("soundref")));
    assert!(!holds_audio(None));
}

#[test]
fn each_sound_has_a_task() {
    assert_eq!(task(&plan_flat("e/start.ogg", Some("ogg"), true, false)), "encode e_start.mp3 or e_start.ogg");
    assert_eq!(task(&plan_flat("e/start.ogg", Some("ogg"), false, false)), "copy e_start.ogg");
    assert_eq!(task(&plan_flat("e\\a.mp3", Some("mp3"), true, true)), "copy e_a.mp3");
    assert_eq!(task(&plan_flat("a.bank", Some("bank"), true, false)), "keep a.bank");
    assert_eq!(task(&plan_flat("bus/a.bank", Some("bank"), true, true)), "decode bus_a or bus_a.bank");
    // a bank that gives no samples is copied through
    let t = plan_flat("bus/a.bank", Some("bank"), true, true);
    assert_eq!(copy_instead(&t, false, 0), Some("bus_a.bank".to_string()));
    assert_eq!(copy_instead(&t, false, 3), None);
    let t = plan_flat("e/a.ogg", Some("ogg"), true, true);
    assert_eq!(copy_instead(&t, false, 0), Some("e_a.ogg".to_string()));
    assert_eq!(copy_instead(&t, true, 0), None);
    let t = plan_tree("sound/bus/a.bank", Some("bank"), true, true);
    assert_eq!(copy_instead(&t, false, 0), None);
    assert_eq!(
        task(&plan_tree("sound/bus/a.bank", Some("bank"), true, true)),
        "decode bus/a"
    );
    assert_eq!(
        task(&plan_tree("sound/bus/a.bank", Some("bank"), true, false)),
        "keep _fmod_banks/a.bank"
    );
    assert_eq!(
        task(&plan_tree("sound\\bus\\a.OGG", Some("OGG"), true, false)),
        "encode bus/a.mp3 or bus/a.OGG"
    );
    assert_eq!(task(&plan_tree("x/a.wav", Some("wav"), false, false)), "copy x/a.wav");
}

#[test]
fn sounds_are_counted() {
    let mut r = Report::new();
    r.count(&plan_flat("a.ogg", Some("ogg"), true, false), true, 0);
    r.count(&plan_flat("a.ogg", Some("ogg"), true, false), false, 0);
    r.count(&plan_flat("a.mp3", Some("mp3"), true, false), false, 0);
    r.count(&plan_tree("a.bank", Some("bank"), true, true), false, 5);
    r.count(&plan_flat("a.bank", Some("bank"), true, false), false, 0);
    assert_eq!((r.converted, r.copied, r.banks, r.bank_samples), (1, 2, 2, 5));
    assert_eq!(
        notes(&r, true),
        (
            None,
            "sound: 1 converted to MP3, 2 copied as-is, 2 FMOD bank(s) (a bank needs FMOD's own tools to open)"
                .to_string()
        )
    );
    assert!(notes(&r, false).0.is_some());
    assert_eq!(notes(&Report::new(), false), (None, "this mod ships no sound".to_string()));
}

#[test]
fn samples_of_one_name_get_numbers() {
    let s = samples(&words(&["2_horn.wav", "1_horn.wav", "3_door.wav", "x.txt", "plain.wav"]));
    let got: Vec<(&str, &str)> = s.iter().map(|x| (x.file.as_str(), x.out.as_str())).collect();
    assert_eq!(
        got,
        vec![
            ("3_door.wav", "door"),
            ("1_horn.wav", "horn_1"),
            ("2_horn.wav", "horn_2"),
            ("plain.wav", "plain"),
        ]
    );
    // a name that is taken already gets another number, and no file goes over another
    let s = samples(&words(&["1_a.wav", "2_a.wav", "3_a_1.wav", "4_a b.wav", "5_a?b.wav"]));
    let got: Vec<&str> = s.iter().map(|x| x.out.as_str()).collect();
    assert_eq!(got, vec!["a_1", "a_2", "a_b", "a_b_1", "a_1_1"]);
}

#[test]
fn a_library_is_tallied() {
    let mut t = Tally::new();
    let mut r = Report::new();
    r.count(&plan_flat("a.bank", Some("bank"), true, false), false, 0);
    assert_eq!(t.count("silent", &r), None);
    assert_eq!(t.bank_only, words(&["silent (1 bank)"]));
    r.converted = 3;
    r.bank_samples = 2;
    assert_eq!(t.count("loud", &r), Some("loud: 3 loose + 2 from 1 bank(s)".to_string()));
    assert_eq!((t.with_sound, t.without, t.mp3, t.banks), (1, 1, 5, 1));
}

// -------------------------------------------------------------- session ---

fn vehicle() -> VehicleDef {
    VehicleDef {
        def_dir: Vec::new(),
        name: "v".to_string(),
        cabins: words(&["c"]),
        chassis: words(&["k"]),
        required: Vec::new(),
    }
}

#[test]
fn settings_are_saved_and_loaded() {
    let mut s = Settings::new();
    assert!(s.variants_row && !s.sounds && s.skip_existing && s.cleanup && !s.show_advanced);
    s.sounds = true;
    s.cleanup = false;
    let text = s.save();
    assert_eq!(
        text,
        "variants_row=1\nsounds=1\nskip_existing=1\ncleanup=0\nshow_advanced=0\n"
    );
    let mut t = Settings::new();
    t.load(&text);
    assert!(s == t);
    t.load("nonsense\n cleanup =1\nother=1\n");
    assert!(t.cleanup);
}

#[test]
fn one_click_leads_to_the_conversion() {
    let mut s = Session::new(Settings::new());
    assert!(matches!(s.go(), Action::Nothing));
    s.set_archive("m/truck.scs", Some("m"), Some("truck"));
    assert_eq!(s.outdir, Some("m/truck".to_string()));
    assert!(matches!(s.go(), Action::Scan { .. }));
    assert!(s.phase == Phase::Scanning);
    match s.scanned(vec![vehicle()], &Vec::new()) {
        Action::Convert(o) => {
            assert_eq!(o.vehicle, "v");
            assert_eq!(o.cabin, "c");
            assert_eq!(o.chassis, "k");
            assert_eq!(o.interior_variant, "");
            assert_eq!(o.archive, "m/truck.scs");
            assert!(o.variants_row && o.cleanup);
        }
        _ => panic!("nothing to do"),
    }
    assert!(s.phase == Phase::Converting);
    s.receive(Msg::Done(words(&["out.fbx"])));
    assert!(s.phase == Phase::Finished);
    assert_eq!(s.step, "Done");
    assert_eq!(s.outputs, words(&["out.fbx"]));
}

#[test]
fn news_are_logged() {
    let mut s = Session::new(Settings::new());
    s.receive(Msg::Step("one".to_string()));
    s.receive(Msg::Info("two".to_string()));
    s.receive(Msg::Warn("three".to_string()));
    assert_eq!((s.step.as_str(), s.warnings, s.log.len()), ("one", 1, 3));
    assert!(s.log[2].0 == Tone::Warn);
    s.receive(Msg::Error("four".to_string()));
    assert_eq!(s.step, "Failed");
    assert!(s.show_log && s.phase == Phase::Idle);
    for _ in 0..2000 {
        s.receive(Msg::Info("x".to_string()));
        assert!(s.log.len() <= 800);
    }
    assert!(matches!(s.scanned(Vec::new(), &Vec::new()), Action::Nothing));
    assert_eq!(
        s.log[s.log.len() - 1].1,
        "no truck definition in this archive - it may be a map, sound or trailer mod"
    );
}

// ------------------------------------------------------------------ fbx ---

#[test]
fn an_empty_file_has_a_header_and_a_footer() {
    let b = scs2fbx::fbx::write(&Vec::new());
    assert_eq!(&b[0..21], b"Kaydara FBX Binary  \x00");
    assert_eq!(&b[21..23], &[0x1a, 0]);
    assert_eq!(u32::from_le_bytes([b[23], b[24], b[25], b[26]]), 7400);
    assert_eq!(b.len() % 16, 0);
}

#[test]
fn records_hold_their_properties() {
    let n = Node::new("A").i32(7).bool(true).str("x").i64(-1).double(1.0f64.to_bits());
    let b = scs2fbx::fbx::write(&vec![n]);
    // where the record ends, how many properties, how long they are
    let at = 27;
    let word = |i: usize| u32::from_le_bytes([b[i], b[i + 1], b[i + 2], b[i + 3]]) as usize;
    assert_eq!(word(at + 4), 5);
    assert_eq!(word(at + 8), 5 + 2 + 6 + 9 + 9);
    assert_eq!(b[at + 12], 1);
    assert_eq!(b[at + 13], b'A');
    assert_eq!(word(at), at + 14 + word(at + 8));
    assert_eq!(&b[at + 14..at + 19], b"I\x07\x00\x00\x00");
    assert_eq!(&b[at + 19..at + 21], b"C\x01");
    assert_eq!(&b[at + 21..at + 27], b"S\x01\x00\x00\x00x");
}

#[test]
fn arrays_are_deflated_where_that_is_shorter() {
    match encode_array(b'd', 100, vec![0; 800]) {
        Prop::Array { code, count, encoding, payload } => {
            assert_eq!((code, count, encoding), (b'd', 100, 1));
            let mut raw = Vec::new();
            flate2::read::ZlibDecoder::new(&payload[..]).read_to_end(&mut raw).unwrap();
            assert_eq!(raw, vec![0; 800]);
        }
        _ => panic!("no array"),
    }
    match encode_array(b'i', 1, vec![1, 2, 3, 4]) {
        Prop::Array { encoding, payload, .. } => {
            assert_eq!(encoding, 0);
            assert_eq!(payload, vec![1, 2, 3, 4]);
        }
        _ => panic!("no array"),
    }
    match pick_array(b'i', 1, vec![1, 2], None) {
        Prop::Array { encoding, .. } => assert_eq!(encoding, 0),
        _ => panic!("no array"),
    }
}

#[test]
fn ids_count_up() {
    let mut ids = Ids::default();
    let a = ids.next();
    assert_eq!(ids.next(), a + 1);
    assert_eq!(p70_i("n", "t", "s", 1).props.len(), 5);
    assert_eq!(p70_d("n", "t", "s", 1).props.len(), 5);
    assert_eq!(p70_s("n", "t", "s", "v").props.len(), 5);
    assert_eq!(p70_c3("n", "t", "s", (1, 2, 3)).props.len(), 7);
}

fn holds(b: &[u8], s: &[u8]) -> bool {
    b.windows(s.len()).any(|w| w == s)
}

#[test]
fn a_scene_is_written() {
    let mesh = fbxscene::Mesh {
        name: "cube".to_string(),
        positions: vec![0; 9],
        uvs: vec![0; 6],
        uvs2: Vec::new(),
        colors: Vec::new(),
        tris: vec![(0, 1, 2)],
        material: 0,
    };
    let mat = fbxscene::Material {
        name: "skin".to_string(),
        diffuse: (0, 0, 0),
        texture: Some("textures/skin.dds".to_string()),
        normal_map: None,
        wants_alpha: false,
        uv_set: "UVMap".to_string(),
    };
    let b = write_file(&vec![mesh], &vec![mat]);
    assert!(holds(&b, b"cube\x00\x01Model"));
    assert!(holds(&b, b"cube\x00\x01Geometry"));
    assert!(holds(&b, b"skin\x00\x01Material"));
    assert!(holds(&b, b"textures/skin.dds"));
    assert!(holds(&b, b"DiffuseColor"));
    assert!(holds(&b, b"LayerElementUV"));
    // colour only, and no normals
    assert!(!holds(&b, b"NormalMap"));
    assert!(!holds(&b, b"LayerElementNormal"));
    assert_eq!(b.len() % 16, 0);
}
