use scs2fbx::archive::{Archive, What};
use scs2fbx::cityhash::city_hash64;
use scs2fbx::hashfs::{HashFs, ScsError};
use scs2fbx::harvest::{find, find_quoted_after, harvest_paths, sniff_extension, Names};
use scs2fbx::pairing::{find_models, find_nearest, rank};
use scs2fbx::rawzip::RawZip;
use scs2fbx::salvage::{scan_notes, Plain};
use scs2fbx::showroom::{
    agreement, find_texture, gather, list_items, match_shape, model_order, name_material,
    readable_pieces, shape_key, Match,
};
use std::collections::HashMap;
use std::io::Write;

const DIR: u32 = 1;
const PACKED: u32 = 2;

/// A HashFS archive with the given entries: path, flags, contents.
fn hashfs(entries: &[(&str, u32, Vec<u8>)]) -> Vec<u8> {
    let mut out: Vec<u8> = Vec::new();
    out.extend_from_slice(b"SCS#");
    out.extend_from_slice(&1u16.to_le_bytes());
    out.extend_from_slice(&0u16.to_le_bytes());
    out.extend_from_slice(b"CITY");
    out.extend_from_slice(&(entries.len() as u32).to_le_bytes());
    let mut body: Vec<u8> = Vec::new();
    let mut table: Vec<u8> = Vec::new();
    for (path, flags, data) in entries {
        let stored = if flags & PACKED != 0 {
            let mut e = flate2::write::ZlibEncoder::new(Vec::new(), flate2::Compression::fast());
            e.write_all(data).unwrap();
            e.finish().unwrap()
        } else {
            data.clone()
        };
        table.extend_from_slice(&city_hash64(path.as_bytes()).to_le_bytes());
        table.extend_from_slice(&((20 + body.len()) as u64).to_le_bytes());
        table.extend_from_slice(&flags.to_le_bytes());
        table.extend_from_slice(&0u32.to_le_bytes());
        table.extend_from_slice(&(data.len() as u32).to_le_bytes());
        table.extend_from_slice(&(stored.len() as u32).to_le_bytes());
        body.extend_from_slice(&stored);
    }
    out.extend_from_slice(&((20 + body.len()) as u32).to_le_bytes());
    out.extend_from_slice(&body);
    out.extend_from_slice(&table);
    out
}

fn open(b: Vec<u8>) -> HashFs {
    match HashFs::open(b) {
        Ok(f) => f,
        Err(e) => panic!("{}", e.message()),
    }
}

fn plain() -> Plain {
    Plain { texts: HashMap::new() }
}

fn small() -> Vec<u8> {
    hashfs(&[
        ("", DIR, b"*def\nmanifest.sii".to_vec()),
        ("def", DIR | PACKED, b"a.sii\r\n".to_vec()),
        ("manifest.sii", 0, b"one".to_vec()),
        ("def/a.sii", PACKED, b"two two two two two two two two".to_vec()),
        ("hidden/b.bin", 0, b"three".to_vec()),
    ])
}

#[test]
fn files_are_read_by_path() {
    let fs = open(small());
    assert_eq!(fs.read_path("manifest.sii"), Some(b"one".to_vec()));
    // packed, and with a leading slash
    assert_eq!(fs.read_path("/def/a.sii"), Some(b"two two two two two two two two".to_vec()));
    // a folder is no file
    assert_eq!(fs.read_path("def"), None);
    assert_eq!(fs.read_path("nothing"), None);
    let e = fs.entry("def").unwrap();
    assert!(e.is_dir() && e.is_compressed());
}

#[test]
fn the_tree_is_what_can_be_reached() {
    let fs = open(small());
    match fs.list_tree() {
        Ok((files, dirs)) => {
            assert_eq!(files, vec!["def/a.sii".to_string(), "manifest.sii".to_string()]);
            assert_eq!(dirs, vec!["".to_string(), "def".to_string()]);
        }
        Err(e) => panic!("{}", e.message()),
    }
}

fn fault(b: Vec<u8>) -> String {
    match HashFs::open(b) {
        Ok(_) => String::new(),
        Err(e) => e.message(),
    }
}

#[test]
fn archives_say_why_they_cannot_be_opened() {
    assert_eq!(fault(vec![0; 10]), "io error: failed to fill whole buffer");
    assert_eq!(
        fault(vec![0; 40]),
        "not an SCS# archive (a plain .zip .scs is not supported yet)"
    );
    let mut b = small();
    b[4] = 2;
    assert_eq!(
        fault(b),
        "this is a HashFS v2 archive (game 1.50+); only v1 is implemented so far"
    );
    let mut b = small();
    let n = b.len();
    b.truncate(n - 1);
    assert_eq!(fault(b), "io error: failed to fill whole buffer");
}

#[test]
fn broken_data_is_told() {
    let mut b = hashfs(&[("x", PACKED, b"some text".to_vec())]);
    b[20] = 0xff;
    let fs = open(b);
    let e = fs.entry("x").unwrap();
    match fs.read_entry(&e) {
        Ok(_) => panic!("read"),
        Err(ScsError::Inflate(_)) => {}
        Err(e) => panic!("{}", e.message()),
    }
}

#[test]
fn nothing_is_lost_when_a_hashfs_is_unpacked() {
    let mut a = match Archive::open(small()) {
        Ok(a) => a,
        Err(e) => panic!("{}", e.message()),
    };
    assert_eq!(a.kind(), "HashFS v1");
    assert_eq!(a.entry_count(), 5);
    let u = a.extract_all(true, &plain());
    match &u.ending {
        Ok(n) => assert_eq!(*n, (2, 0, 1)),
        Err(e) => panic!("{}", e.message()),
    }
    assert_eq!(u.items.len(), 3);
    assert_eq!(u.items[0].path, vec!["def".to_string(), "a.sii".to_string()]);
    // what has no name goes out under its hash
    assert_eq!(u.items[2].path[0], "_unknown");
    match a.read_item(&u.items[1].what) {
        Ok(b) => assert_eq!(b, b"one".to_vec()),
        Err(e) => panic!("{}", e.message()),
    }
    assert!(a.read_item(&What::Key(0)).is_err());
}

#[test]
fn names_are_found_by_a_deep_scan() {
    let b = hashfs(&[
        ("", DIR, b"*def".to_vec()),
        ("def", DIR, b"t.sii".to_vec()),
        ("def/t.sii", 0, b"model: \"/vehicle/truck/body.pmd\"".to_vec()),
        ("vehicle/truck/body.pmd", 0, b"x".to_vec()),
    ]);
    let fs = open(b);
    let x = fs.extract_all(true, &plain());
    assert!(x.plan.iter().any(|(p, _)| p == "vehicle/truck/body.pmd"));
    match x.ending {
        Ok(n) => assert_eq!(n, (1, 1, 0)),
        Err(e) => panic!("{}", e.message()),
    }
    // without it the file goes out under its hash
    let x = fs.extract_all(false, &plain());
    match x.ending {
        Ok(n) => assert_eq!(n, (1, 0, 1)),
        Err(e) => panic!("{}", e.message()),
    }
}

#[test]
fn a_deep_scan_reads_what_no_folder_lists() {
    // the material has no name anywhere, yet it spells out its texture
    let b = hashfs(&[
        ("", DIR, b"".to_vec()),
        ("lost/skin.mat", 0, b"texture: \"/vehicle/skin.tobj\"".to_vec()),
        ("vehicle/skin.tobj", 0, b"x".to_vec()),
    ]);
    let x = open(b).extract_all(true, &plain());
    assert!(x.plan.iter().any(|(p, _)| p == "vehicle/skin.tobj"));
    assert_eq!(
        scan_notes(x.unnamed, &x.rounds),
        vec![
            "deep scan: reading 2 unnamed entries".to_string(),
            "deep scan round 1: 1 files to scan".to_string(),
            "deep scan round 1: recovered 0 new files".to_string(),
        ]
    );
    match x.ending {
        Ok(n) => assert_eq!(n, (0, 1, 1)),
        Err(e) => panic!("{}", e.message()),
    }
}

#[test]
fn one_unreadable_entry_loses_none_of_the_others() {
    let text = b"hello hello hello hello hello hello".to_vec();
    let mut b = zipped(&[("a.txt", &text), ("b.txt", &text)]);
    flag_entries(&mut b);
    // send the first entry's header out of the file
    let i = b.windows(4).position(|w| w == b"PK\x01\x02").unwrap();
    b[i + 42..i + 46].copy_from_slice(&0x7fff_ffffu32.to_le_bytes());
    let mut a = match Archive::open(b) {
        Ok(a) => a,
        Err(e) => panic!("{}", e.message()),
    };
    let u = a.extract_all(false, &plain());
    assert_eq!(u.failed, 1);
    assert_eq!(u.items.len(), 1);
    assert_eq!(u.items[0].path, vec!["b.txt".to_string()]);
    match a.read_item(&u.items[0].what) {
        Ok(d) => assert_eq!(d, text),
        Err(e) => panic!("{}", e.message()),
    }
    match u.ending {
        Ok(n) => assert_eq!(n, (1, 0, 0)),
        Err(e) => panic!("{}", e.message()),
    }
}

#[test]
fn obfuscated_texts_are_read_as_what_they_say() {
    let b = hashfs(&[
        ("", DIR, b"t.sii".to_vec()),
        ("t.sii", 0, b"unreadable".to_vec()),
        ("vehicle/truck/body.pmd", 0, b"x".to_vec()),
    ]);
    let fs = open(b);
    let mut p = plain();
    p.texts.insert(city_hash64(b"t.sii"), b"model: \"/vehicle/truck/body.pmd\"".to_vec());
    let x = fs.extract_all(true, &p);
    assert!(x.plan.iter().any(|(p, _)| p == "vehicle/truck/body.pmd"));
}

// ---------------------------------------------------------------- zips ---

fn zipped(names: &[(&str, &[u8])]) -> Vec<u8> {
    let mut w = zip::ZipWriter::new(std::io::Cursor::new(Vec::new()));
    for (n, d) in names {
        w.start_file(*n, zip::write::SimpleFileOptions::default()).unwrap();
        w.write_all(d).unwrap();
    }
    w.finish().unwrap().into_inner()
}

#[test]
fn a_zip_is_unpacked_inside_its_folder() {
    let text = b"hello hello hello hello hello hello".to_vec();
    let b = zipped(&[("a/b.txt", &text), ("../up.txt", b"x"), ("c\\d.txt", b"y")]);
    let mut a = match Archive::open(b) {
        Ok(a) => a,
        Err(e) => panic!("{}", e.message()),
    };
    assert_eq!(a.kind(), "zip");
    assert_eq!(a.entry_count(), 3);
    let u = a.extract_all(true, &plain());
    let paths: Vec<String> = u.items.iter().map(|i| i.path.join("/")).collect();
    assert_eq!(paths, vec!["a/b.txt", "up.txt", "c/d.txt"]);
    match a.read_item(&u.items[0].what) {
        Ok(d) => assert_eq!(d, text),
        Err(e) => panic!("{}", e.message()),
    }
    match &u.ending {
        Ok(n) => assert_eq!(*n, (3, 0, 0)),
        Err(e) => panic!("{}", e.message()),
    }
    assert!(a.read_item(&What::Index(9)).is_err());
}

/// Sets the encryption bit in the directory of a zip.
fn flag_entries(b: &mut [u8]) {
    let mut i = 0;
    while i + 10 < b.len() {
        if &b[i..i + 4] == b"PK\x01\x02" {
            b[i + 8] |= 1;
        }
        i += 1;
    }
}

#[test]
fn a_zip_that_contradicts_itself_is_read_anyway() {
    let text = b"hello hello hello hello hello hello".to_vec();
    let mut b = zipped(&[("a/b.txt", &text)]);
    flag_entries(&mut b);
    let z = match RawZip::open(b.clone()) {
        Ok(z) => z,
        Err(e) => panic!("{}", e.message()),
    };
    assert_eq!(z.flagged_encrypted, 1);
    assert!(z.is_falsely_locked());
    match z.read(0) {
        Ok(d) => assert_eq!(d, text),
        Err(e) => panic!("{}", e.message()),
    }
    let mut a = match Archive::open(b) {
        Ok(a) => a,
        Err(e) => panic!("{}", e.message()),
    };
    assert_eq!(a.kind(), "zip with a fake encryption flag on 1 entries");
    let u = a.extract_all(false, &plain());
    assert_eq!(u.failed, 0);
    match a.read_item(&u.items[0].what) {
        Ok(d) => assert_eq!(d, text),
        Err(e) => panic!("{}", e.message()),
    }
}

#[test]
fn a_consistent_zip_is_left_to_its_reader() {
    let b = zipped(&[("a", b"x")]);
    match RawZip::open(b) {
        Ok(z) => assert!(!z.is_falsely_locked()),
        Err(e) => panic!("{}", e.message()),
    }
    // marked on both sides, the mark is believed
    let mut b = zipped(&[("a", b"x")]);
    flag_entries(&mut b);
    b[6] |= 1;
    let mut a = match Archive::open(b) {
        Ok(a) => a,
        Err(e) => panic!("{}", e.message()),
    };
    let u = a.extract_all(false, &plain());
    match u.ending {
        Ok(_) => panic!("unpacked"),
        Err(e) => assert_eq!(
            e.message(),
            "this .scs is marked protected by its author - ask them for a copy you are allowed to convert"
        ),
    }
}

#[test]
fn what_is_no_archive_is_refused() {
    match Archive::open(vec![1, 2, 3]) {
        Ok(_) => panic!("opened"),
        Err(e) => assert_eq!(e.message(), "io error: failed to fill whole buffer"),
    }
    match Archive::open(vec![7; 100]) {
        Ok(_) => panic!("opened"),
        Err(e) => assert!(e
            .message()
            .starts_with("decompression failed: not a HashFS archive and not readable as a zip: ")),
    }
}

// ------------------------------------------------------------- harvest ---

#[test]
fn paths_are_harvested() {
    let mut n = Names::new();
    harvest_paths(b"x = \"/vehicle/truck/a.pmd\";", "", &mut n);
    assert!(n.has("vehicle/truck/a.pmd"));
    assert!(n.has("vehicle/truck/a.pmg"));
    assert_eq!(find(b"abcabc", b"bc", 2), Some(4));
    assert_eq!(find(b"abcabc", b"xx", 0), None);
    assert_eq!(
        find_quoted_after(b"icon: \"a\" icon: \"b\"", b"icon:"),
        vec!["a".to_string(), "b".to_string()]
    );
}

#[test]
fn kinds_are_told_from_first_bytes() {
    assert_eq!(sniff_extension(b"DDS rest"), ".dds");
    assert_eq!(sniff_extension(b"\x15gmP"), ".pmg");
    assert_eq!(sniff_extension(b"\xff\xd8\xff"), ".jpg");
    assert_eq!(sniff_extension(b"RIFFxxxxWAVE"), ".wav");
    assert_ne!(sniff_extension(b"RIFFxxxxAVI "), ".wav");
}

// ------------------------------------------------------------- showroom ---

fn pmg_bytes(first: u8) -> Vec<u8> {
    let mut b = vec![0u8; 200];
    b[0] = 0x15;
    b[1..4].copy_from_slice(b"gmP");
    b[199] = first;
    b
}

fn pmd_bytes(pieces: u32, parts: u32) -> Vec<u8> {
    let mut b = vec![0u8; 128];
    b[0] = 4;
    b[12..16].copy_from_slice(&pieces.to_le_bytes());
    b[20..24].copy_from_slice(&parts.to_le_bytes());
    b
}

#[test]
fn models_and_descriptors_are_found_and_paired() {
    let fs = open(hashfs(&[
        ("", DIR, b"a".to_vec()),
        ("a", 0, pmg_bytes(1)),
        ("b", 0, pmd_bytes(0, 0)),
        ("c", 0, pmg_bytes(2)),
        ("d", 0, pmd_bytes(5, 5)),
        ("e", 0, b"neither".to_vec()),
    ]));
    let f = find_models(&fs);
    assert_eq!(f.models.len(), 2);
    assert_eq!(f.descs.len(), 2);
    assert_eq!(f.descs[1].1.signature(), (5, 5));
    // the first model is nearest to the one before it in the archive; so is the
    // second, whose own descriptor lies as far behind it
    let (yes, no) = agreement(&f);
    assert_eq!(yes + no, 2);
    assert!(yes >= 1);
    // an empty model cannot be shown
    let g = gather(&f, &vec![Vec::new(), Vec::new()]);
    assert_eq!(g.kept.len(), 0);
    assert_eq!(g.skipped, 2);
    assert_eq!(model_order(&f), vec![0, 1]);
    assert!(readable_pieces(&f.models[0].1).is_empty());
    assert!(list_items(&f, &g).items.is_empty());
}

#[test]
fn shapes_are_matched() {
    let d = |m: &[&str]| {
        let mut p = scs2fbx::pmd::parse_bytes(&pmd_bytes(1, 1)).unwrap();
        p.materials = m.iter().map(|s| s.to_string()).collect();
        p
    };
    assert!(match_shape(&Vec::new(), 1, 1) == Match::Unmatched);
    assert!(match_shape(&vec![d(&["a"])], 1, 1) == Match::Unique);
    assert!(match_shape(&vec![d(&["a"]), d(&["a"])], 1, 1) == Match::Harmless);
    assert!(match_shape(&vec![d(&["a"]), d(&["b"])], 1, 1) == Match::Ambiguous);
    assert!(match_shape(&vec![d(&["a"]), d(&["b"])], 2, 1) == Match::Unmatched);
}

#[test]
fn ranks_rise_and_the_nearest_is_found() {
    assert_eq!(rank(&vec![30, 10, 20, 10]), vec![1, 3, 2, 0]);
    assert_eq!(find_nearest(&vec![10, 20, 30], 24), Some(1));
    // equally near: the first
    assert_eq!(find_nearest(&vec![10, 20], 15), Some(0));
    assert_eq!(find_nearest(&Vec::new(), 15), None);
}

#[test]
fn shapes_are_hashed_in_order() {
    assert_eq!(shape_key(&Vec::new()), 0xcbf29ce484222325);
    let one = (0xcbf29ce484222325u64 ^ 7).wrapping_mul(0x100000001b3);
    assert_eq!(shape_key(&vec![7]), one);
    assert_ne!(shape_key(&vec![1, 2]), shape_key(&vec![2, 1]));
}

fn dds(fourcc: &[u8; 4], data: &[u8]) -> Vec<u8> {
    let mut b = vec![0u8; 128];
    b[0..4].copy_from_slice(b"DDS ");
    b[84..88].copy_from_slice(fourcc);
    b.extend_from_slice(data);
    b
}

#[test]
fn textures_are_followed_to_their_image() {
    let fs = open(hashfs(&[
        ("m/a.mat", 0, b"material : \"eut2.dif.spec\" {\n\ttexture[0] : \" m/a.tobj \"\n}\n".to_vec()),
        ("m/a.tobj", 0, b"\x01\x0a\xb1p\x00\x00/m/a.dds".to_vec()),
        ("m/a.dds", 0, dds(b"DXT5", &[9u8; 16])),
        ("m/g.mat", 0, b"material : \"eut2.glass\" {\n\ttexture[0] : \"m/a.tobj\"\n}\n".to_vec()),
        ("m/x.mat", 0, b"material : \"eut2.glass\" {\n}\n".to_vec()),
    ]));
    let t = find_texture(&fs, "/m/a.mat").unwrap();
    assert_eq!(t.name, "m_a.dds");
    assert_eq!(&t.bytes[128..136], &[255, 255, 0, 0, 0, 0, 0, 0]);
    // glass keeps its alpha
    let t = find_texture(&fs, "m/g.mat").unwrap();
    assert_eq!(&t.bytes[128..136], &[9u8; 8]);
    assert!(find_texture(&fs, "m/x.mat").is_none());
    assert!(find_texture(&fs, "m/none.mat").is_none());
    assert_eq!(name_material("/m/a.mat"), "mat_a");
    assert_eq!(name_material("a"), "mat_a");
}
