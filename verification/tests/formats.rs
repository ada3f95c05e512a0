use scs2fbx::cityhash::city_hash64;
use scs2fbx::pim::{self, num, quoted, tuple_on, Decimals};
use scs2fbx::pit::{self, Material};
use scs2fbx::points::geometry_key;
use scs2fbx::{pmd, pmg};

/// The decimals that stand in a text, with their bits.
fn decimals(words: &[&str]) -> Decimals {
    let mut t = Decimals::new();
    for w in words {
        if let Ok(f) = w.parse::<f32>() {
            t.insert(w.to_string(), f.to_bits());
        }
    }
    t
}

#[test]
fn vectors_from_a_real_archive() {
    let cases: &[(&str, u64)] = &[
        // len 0 - the archive root
        ("", 0x9ae16a3b2f90404f),
        // len 1..16
        ("def", 0x2c6f469efb31c45a),
        ("unit", 0x2c5cc344e4724a8d),
        ("sound", 0x5993d862b6353dfd),
        ("ui", 0x9ec7c23efdbecbe3),
        ("manifest.sii", 0xb97fff7ce7377c95),
        ("logo.jpg", 0x9e8aa1f54dd600f9),
        ("def/vehicle", 0x24fdaf288cc01f62),
        // len 17..32
        ("mod_description.txt", 0xe6ef2b3d04463499),
        // len 33..64
        ("vehicle/truck/thaco_mbh_25/truck.pmg", 0x2baf66afe1257aae),
        (
            "unit/hookup/vehicle/flare/vehicle_yellow_led_d.sii",
            0xf16d701cb8f70245,
        ),
        (
            "def/vehicle/truck/thaco.mbh.25/accessory/steering_w/standard.sii",
            0xa840151fcbce38bf,
        ),
    ];
    for (path, expect) in cases {
        assert_eq!(
            city_hash64(path.as_bytes()),
            *expect,
            "path {:?} (len {})",
            path,
            path.len()
        );
    }
}

#[test]
fn long_path_uses_the_right_loop() {
    let cases: &[(&str, u64)] = &[
        (
            "def/vehicle/trailer_owned/crsthn.t_passag/chassis/chassis_incompatible.sui",
            0x6598e9df95dee91a,
        ),
        (
            "def/vehicle/trailer_owned/passenger/configurations/single/single.sii",
            0xf3b5875135b82b06,
        ),
    ];
    for (p, expect) in cases {
        assert!(p.len() > 64);
        assert_eq!(city_hash64(p.as_bytes()), *expect, "path {:?}", p);
    }
}

#[test]
fn hex_floats() {
    let t = decimals(&["2.5"]);
    assert_eq!(f32::from_bits(num("&3f800000", &t)), 1.0);
    assert_eq!(f32::from_bits(num("&00000000", &t)), 0.0);
    assert_eq!(f32::from_bits(num("&bf800000", &t)), -1.0);
    assert_eq!(f32::from_bits(num("2.5", &t)), 2.5);
}

#[test]
fn tuples_ignore_the_index_column() {
    let t = Decimals::new();
    let floats = |v: Vec<u32>| v.iter().map(|b| f32::from_bits(*b)).collect::<Vec<f32>>();
    assert_eq!(
        floats(tuple_on("   0    ( &3f800000  &00000000  &bf800000 )", &t)),
        vec![1.0, 0.0, -1.0]
    );
    assert_eq!(
        floats(tuple_on("Position: ( &00000000 &00000000 &00000000 )", &t)),
        vec![0.0, 0.0, 0.0]
    );
}

#[test]
fn quoted_values() {
    assert_eq!(quoted("     Name: \"defaultpart\""), "defaultpart");
    assert_eq!(quoted("Tag: \"_POSITION\""), "_POSITION");
}

#[test]
fn alpha_is_read_from_the_shader_name() {
    let a = |e: &str| {
        let mut m = Material::new();
        m.effect = e.to_string();
        m.wants_alpha()
    };
    assert!(a("eut2.glass"));
    assert!(a("eut2.dif.spec.a.decal"));
    assert!(a("eut2.dif.spec.weight.mult2.weight2.dif.spec.alpha.test"));
    // the specular-mask family must stay opaque
    assert!(!a("eut2.dif.spec"));
    assert!(!a("eut2.dif.spec.add.env"));
    assert!(!a("eut2.truckpaint.rfx"));
    assert!(!a("eut2.dif.spec.mult.dif.spec.add.env.shadow.rfx"));
}

#[test]
fn shadow_shaders_are_known() {
    let mut m = Material::new();
    m.effect = "eut2.shadowonly".to_string();
    assert!(m.is_shadow_only());
    m.effect = "eut2.dif.shadow".to_string();
    assert!(!m.is_shadow_only());
}

#[test]
fn rejects_blobs_that_only_look_like_one() {
    assert!(pmd::parse_bytes(&[0u8; 10]).is_err());
    // version 4 but nonsense counts
    let mut b = vec![0u8; 128];
    b[0] = 4;
    b[4..8].copy_from_slice(&999_999u32.to_le_bytes());
    assert!(pmd::parse_bytes(&b).is_err());
}

#[test]
fn reads_counts_and_signature() {
    let mut b = vec![0u8; 128];
    b[0] = 4;
    b[4..8].copy_from_slice(&2u32.to_le_bytes()); // materials
    b[8..12].copy_from_slice(&1u32.to_le_bytes()); // looks
    b[12..16].copy_from_slice(&7u32.to_le_bytes()); // pieces
    b[20..24].copy_from_slice(&3u32.to_le_bytes()); // parts
    let p = pmd::parse_bytes(&b).unwrap();
    assert_eq!(p.signature(), (7, 3));
    assert_eq!(p.materials.len(), 2);
}

#[test]
fn descriptors_say_why_they_are_refused() {
    let text = |b: &[u8]| match pmd::parse_bytes(b) {
        Ok(_) => String::new(),
        Err(e) => e.message(),
    };
    assert_eq!(text(&[0u8; 10]), "too short for a .pmd");
    assert_eq!(text(&[3u8; 64]), "unsupported .pmd version 50529027");
    let mut b = vec![0u8; 128];
    b[0] = 4;
    b[4..8].copy_from_slice(&999_999u32.to_le_bytes());
    assert_eq!(text(&b), "implausible .pmd counts");
}

#[test]
fn descriptors_name_their_materials() {
    let mut b = vec![0u8; 160];
    b[0] = 4;
    b[4..8].copy_from_slice(&1u32.to_le_bytes());
    b[8..12].copy_from_slice(&1u32.to_le_bytes());
    b[12..16].copy_from_slice(&1u32.to_le_bytes());
    b[20..24].copy_from_slice(&1u32.to_le_bytes());
    b[56..60].copy_from_slice(&128u32.to_le_bytes());
    b[4..8].copy_from_slice(&3u32.to_le_bytes());
    b[128..132].copy_from_slice(&140u32.to_le_bytes());
    b[132..136].copy_from_slice(&0u32.to_le_bytes());
    b[136..140].copy_from_slice(&9999u32.to_le_bytes());
    b[140..146].copy_from_slice(b"/a.mat");
    let p = pmd::parse_bytes(&b).unwrap();
    assert_eq!(p.materials, vec!["/a.mat".to_string(), String::new(), String::new()]);
}

#[test]
fn tokens_decode_least_significant_digit_first() {
    assert_eq!(pmg::token_to_string(1), "0");
    assert_eq!(pmg::token_to_string(11), "a");
    // the pair this alphabet was solved from
    assert_eq!(pmg::token_to_string(0x0000000422e5ac75), "chs_6x4");
    assert_eq!(pmg::token_to_string(0x0000000fd69a6cfe), "b_grill");
    assert_eq!(pmg::token_to_string(0), "");
}

#[test]
fn no_token_has_more_than_twelve_characters() {
    assert_eq!(pmg::token_to_string(u64::MAX).len(), 12);
    assert_eq!(pmg::token_to_string(9310757851967833171), "000000000000");
}

#[test]
fn rejects_what_is_not_a_pmg() {
    assert!(pmg::parse_bytes(&[0u8; 200]).is_err());
    let mut b = vec![0u8; 200];
    b[0] = 0x15;
    b[1..4].copy_from_slice(b"gmP");
    assert!(pmg::parse_bytes(&b).is_ok());
}

#[test]
fn geometry_says_why_it_is_refused() {
    let text = |b: &[u8]| match pmg::parse_bytes(b) {
        Ok(_) => String::new(),
        Err(e) => e.message(),
    };
    assert!(!text(&[0u8; 200]).is_empty());
    let mut b = vec![0u8; 200];
    b[0] = 0x77;
    b[1..4].copy_from_slice(b"gmP");
    assert!(!text(&b).is_empty());
    assert_ne!(text(&b), text(&[0u8; 200]));
}

const PIM: &str = r#"Header {
     FormatVersion: 5
}
Material {
     Alias: "paint"
     Effect: "eut2.truckpaint"
}
Piece {
     Index: 0
     Material: 0
     VertexCount: 3
     TriangleCount: 1
     StreamCount: 2
     Stream {
          Format: FLOAT3
          Tag: "_POSITION"
          0    ( &00000000  &00000000  &00000000 )
          1    ( &3f800000  &00000000  &00000000 )
          2    ( 0.5  &3f800000  &00000000 )
     }
     Stream {
          Format: FLOAT2
          Tag: "_UV0"
          0    ( &00000000  &00000000 )
          1    ( &3f800000  &00000000 )
          2    ( &00000000  &3f800000 )
     }
     Triangles {
          0    ( 0     1     2 )
     }
}
Part {
     Name: "defaultpart"
     PieceCount: 1
     LocatorCount: 1
     Pieces: 0
     Locators: 0
}
Locator {
     Name: "wheel_f_0"
     Index: 0
     Position: ( &3f800000  &00000000  &40000000 )
     Rotation: ( &3f800000  &00000000  &00000000  &00000000 )
     Scale: ( &3f800000  &3f800000  &3f800000 )
}
"#;

#[test]
fn a_small_model_is_read() {
    let words = pim::spellings(PIM);
    assert!(words.contains(&"0.5".to_string()));
    let t = decimals(&words.iter().map(|s| s.as_str()).collect::<Vec<_>>());
    let m = pim::parse(PIM, &t);
    assert_eq!(m.materials, vec!["paint".to_string()]);
    assert_eq!(m.pieces.len(), 1);
    assert_eq!(m.pieces[0].positions.len(), 3);
    assert_eq!(f32::from_bits(m.pieces[0].positions[2].0), 0.5);
    assert_eq!(f32::from_bits(m.pieces[0].positions[2].1), 1.0);
    assert_eq!(m.pieces[0].uv0.len(), 3);
    assert_eq!(m.pieces[0].tris, vec![(0, 1, 2)]);
    assert_eq!(m.parts.len(), 1);
    assert_eq!(m.parts[0].name, "defaultpart");
    assert_eq!(m.part_of_piece().get(&0), Some(&"defaultpart".to_string()));
    assert_eq!(m.locators.len(), 1);
    assert_eq!(m.locators[0].name, "wheel_f_0");
    assert_eq!(f32::from_bits(m.locators[0].position.2), 2.0);
}

#[test]
fn the_last_part_that_lists_a_piece_owns_it() {
    let mut m = pim::Model::new();
    let mut a = pim::Part::new();
    a.name = "a".to_string();
    a.pieces = vec![0, 1];
    let mut b = pim::Part::new();
    b.name = "b".to_string();
    b.pieces = vec![1];
    m.parts = vec![a, b];
    let owners = m.part_of_piece();
    assert_eq!(owners.get(&0), Some(&"a".to_string()));
    assert_eq!(owners.get(&1), Some(&"b".to_string()));
    assert_eq!(owners.get(&2), None);
}

const PIT: &str = r#"Header {
     FormatVersion: 1
}
Look {
     Name: "default"
     Material {
          Alias: "paint"
          Effect: "eut2.truckpaint"
          Flags: 0
          AttributeCount: 1
          TextureCount: 1
          Attribute {
               Format: FLOAT3
               Tag: "diffuse"
               Value: ( 0.5  1.0  0.25 )
          }
          Texture {
               Tag: "texture[0]:texture_base"
               Value: "/vehicle/truck/body"
          }
     }
}
Variant {
     Name: "tall"
     Part {
          Name: "roof"
          AttributeCount: 1
          Attribute {
               Format: INT
               Tag: "visible"
               Value: ( 1 )
          }
     }
     Part {
          Name: "bars"
          AttributeCount: 1
          Attribute {
               Format: INT
               Tag: "visible"
               Value: ( 0 )
          }
     }
}
"#;

#[test]
fn a_small_trait_is_read() {
    let t = decimals(&["0.5", "1.0", "0.25", "1", "0"]);
    let r = pit::parse(PIT, &t);
    let m = r.materials.get("paint").unwrap();
    assert_eq!(m.effect, "eut2.truckpaint");
    assert_eq!(m.textures, vec!["/vehicle/truck/body".to_string()]);
    assert_eq!(m.diffuse, (0.5f32.to_bits(), 1.0f32.to_bits(), 0.25f32.to_bits()));
    assert_eq!(r.variants.len(), 1);
    assert_eq!(r.variants[0].0, "tall");
    assert_eq!(r.variants[0].1.list, vec!["roof".to_string()]);
    assert!(r.variant("tall").is_some());
    assert!(r.variant("short").is_none());
}

fn quantise(p: &[[f32; 3]]) -> Vec<(i32, i32, i32)> {
    let q = |v: f32| (v * 1000.0).round() as i32;
    p.iter().map(|p| (q(p[0]), q(p[1]), q(p[2]))).collect()
}

#[test]
fn duplicate_key_ignores_vertex_order() {
    let a = [[0.0, 0.0, 0.0], [1.0, 0.0, 0.0], [0.0, 1.0, 0.0]];
    let b = [[0.0, 1.0, 0.0], [0.0, 0.0, 0.0], [1.0, 0.0, 0.0]];
    assert_eq!(geometry_key(&quantise(&a)), geometry_key(&quantise(&b)));
    let c = [[0.0, 0.0, 0.0], [1.0, 0.0, 0.0], [0.0, 2.0, 0.0]];
    assert_ne!(geometry_key(&quantise(&a)), geometry_key(&quantise(&c)));
}

#[test]
fn a_mesh_without_points_has_the_start_of_the_hash() {
    assert_eq!(geometry_key(&Vec::new()), 0xcbf29ce484222325);
    // one coordinate after another, the negative one sign-extended
    let mut h: u64 = 0xcbf29ce484222325;
    for v in [-1i32, 2, 3] {
        h ^= v as u64;
        h = h.wrapping_mul(0x100000001b3);
    }
    assert_eq!(geometry_key(&vec![(-1, 2, 3)]), h);
}
