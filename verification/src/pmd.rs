//! Reading the `.pmd` descriptor that belongs to a `.pmg`.
//!
//! It carries what the geometry does not: the material path behind each
//! material index, and the part and variant table.
//!
//! In a well-formed archive the two files share a base name and pairing is
//! trivial. In an archive with no directory listing they are both nameless, so
//! [`Pmd::signature`] gives each one a shape that can be matched against the
//! other.

use crate::bytes::{word, word_at};
use crate::text::{decimal, lossy, texts, utf8_lossy, write_decimal};
use vstd::prelude::*;

verus! {

pub struct Pmd {
    pub material_count: usize,
    pub look_count: usize,
    pub piece_count: usize,
    pub variant_count: usize,
    pub part_count: usize,
    /// material paths of the first look, in material-index order
    pub materials: Vec<String>,
}

#[derive(Clone, Copy, Debug, PartialEq, Eq, Structural)]
pub enum PmdError {
    TooShort,
    UnsupportedVersion(u32),
    ImplausibleCounts,
}

impl PmdError {
    pub open spec fn text(self) -> Seq<char> {
        match self {
            PmdError::TooShort => "too short for a .pmd"@,
            PmdError::UnsupportedVersion(v) => "unsupported .pmd version "@ + decimal(v as nat),
            PmdError::ImplausibleCounts => "implausible .pmd counts"@,
        }
    }

    pub fn message(&self) -> (r: String)
        ensures
            r@ == self.text(),
    {
        match self {
            PmdError::TooShort => "too short for a .pmd".to_owned(),
            PmdError::UnsupportedVersion(v) => {
                crate::text::cat("unsupported .pmd version ", write_decimal(*v as u64).as_str())
            },
            PmdError::ImplausibleCounts => "implausible .pmd counts".to_owned(),
        }
    }
}

impl Pmd {
    /// What a matching `.pmg` must agree with: piece and part counts.
    pub fn signature(&self) -> (r: (usize, usize))
        ensures
            r == (self.piece_count, self.part_count),
    {
        (self.piece_count, self.part_count)
    }
}

/// The unsigned number at `o`; zero where the bytes end before.
pub open spec fn field(b: Seq<u8>, o: int) -> u32 {
    word(b, o, 0)
}

pub fn u32_at(b: &[u8], o: u64) -> (r: u32)
    ensures
        r == field(b@, o as int),
{
    word_at(b, o, 0)
}

/// The first zero byte at or after `o`, or the end.
pub open spec fn string_end(b: Seq<u8>, o: int) -> int
    decreases b.len() - o,
{
    if o >= b.len() {
        b.len() as int
    } else if b[o] == 0 {
        o
    } else {
        string_end(b, o + 1)
    }
}

/// The zero-terminated string that starts at `o`.
pub open spec fn cstr(b: Seq<u8>, o: int) -> Seq<char> {
    if o >= b.len() {
        Seq::empty()
    } else {
        utf8_lossy(b.subrange(o, string_end(b, o)))
    }
}

pub fn cstr_at(b: &[u8], o: usize) -> (r: String)
    ensures
        r@ == cstr(b@, o as int),
{
    if o >= b.len() {
        return String::new();
    }
    let mut end: usize = o;
    while end < b.len() && b[end] != 0
        invariant
            o <= end <= b@.len(),
            string_end(b@, o as int) == string_end(b@, end as int),
        decreases b@.len() - end,
    {
        end = end + 1;
    }
    lossy(&b[o..end])
}

/// The path of material `j` in the first look. The table is look-major, so
/// that look stands first.
pub open spec fn material_path(b: Seq<u8>, j: int) -> Seq<char> {
    let off = field(b, field(b, 56) + 4 * j);
    if off == 0 || off >= b.len() {
        Seq::empty()
    } else {
        cstr(b, off as int)
    }
}

/// Counts that no real descriptor has.
pub open spec fn implausible(b: Seq<u8>) -> bool {
    ||| field(b, 4) > 4096
    ||| field(b, 8) > 256
    ||| field(b, 12) > 65536
    ||| field(b, 20) > 4096
}

/// Why these bytes are no descriptor, if they are none.
pub open spec fn fault(b: Seq<u8>) -> Option<PmdError> {
    if b.len() < 64 {
        Some(PmdError::TooShort)
    } else if field(b, 0) != 4 {
        Some(PmdError::UnsupportedVersion(field(b, 0)))
    } else if implausible(b) {
        Some(PmdError::ImplausibleCounts)
    } else {
        None
    }
}

/// What a descriptor says.
#[verifier::ext_equal]
pub struct PmdView {
    pub material_count: nat,
    pub look_count: nat,
    pub piece_count: nat,
    pub variant_count: nat,
    pub part_count: nat,
    pub materials: Seq<Seq<char>>,
}

impl View for Pmd {
    type V = PmdView;

    open spec fn view(&self) -> PmdView {
        PmdView {
            material_count: self.material_count as nat,
            look_count: self.look_count as nat,
            piece_count: self.piece_count as nat,
            variant_count: self.variant_count as nat,
            part_count: self.part_count as nat,
            materials: texts(self.materials@),
        }
    }
}

/// The descriptor that some bytes are.
pub open spec fn described(b: Seq<u8>) -> PmdView {
    PmdView {
        material_count: field(b, 4) as nat,
        look_count: field(b, 8) as nat,
        piece_count: field(b, 12) as nat,
        variant_count: field(b, 16) as nat,
        part_count: field(b, 20) as nat,
        materials: Seq::new(field(b, 4) as nat, |j: int| material_path(b, j)),
    }
}

pub fn parse_bytes(b: &[u8]) -> (r: Result<Pmd, PmdError>)
    ensures
        r matches Ok(p) ==> p@ == described(b@),
        match r {
            Ok(p) => {
                &&& fault(b@) is None
                &&& p.material_count == field(b@, 4)
                &&& p.look_count == field(b@, 8)
                &&& p.piece_count == field(b@, 12)
                &&& p.variant_count == field(b@, 16)
                &&& p.part_count == field(b@, 20)
                &&& texts(p.materials@) == Seq::new(
                    field(b@, 4) as nat,
                    |j: int| material_path(b@, j),
                )
            },
            Err(e) => fault(b@) == Some(e),
        },
{
    if b.len() < 64 {
        return Err(PmdError::TooShort);
    }
    let version: u32 = u32_at(b, 0);
    if version != 4 {
        return Err(PmdError::UnsupportedVersion(version));
    }
    let material_count: u32 = u32_at(b, 4);
    let look_count: u32 = u32_at(b, 8);
    let piece_count: u32 = u32_at(b, 12);
    let variant_count: u32 = u32_at(b, 16);
    let part_count: u32 = u32_at(b, 20);
    let material_offset: u32 = u32_at(b, 56);
    // These counts are read from unnamed files that were only guessed to be
    // descriptors.
    if material_count > 4096 || look_count > 256 || piece_count > 65536 || part_count > 4096 {
        return Err(PmdError::ImplausibleCounts);
    }
    let mut materials: Vec<String> = Vec::new();
    let mut j: u32 = 0;
    let ghost paths = Seq::new(material_count as nat, |j: int| material_path(b@, j));
    while j < material_count
        invariant
            j <= material_count <= 4096,
            material_count == field(b@, 4),
            material_offset == field(b@, 56),
            paths == Seq::new(field(b@, 4) as nat, |j: int| material_path(b@, j)),
            texts(materials@) =~= paths.take(j as int),
        decreases material_count - j,
    {
        let off: u32 = u32_at(b, material_offset as u64 + 4 * (j as u64));
        let ghost before = texts(materials@);
        if off == 0 || off as u64 >= b.len() as u64 {
            materials.push(String::new());
        } else {
            materials.push(cstr_at(b, off as usize));
        }
        assert(texts(materials@) =~= before.push(paths[j as int]));
        j = j + 1;
    }
    Ok(
        Pmd {
            material_count: material_count as usize,
            look_count: look_count as usize,
            piece_count: piece_count as usize,
            variant_count: variant_count as usize,
            part_count: part_count as usize,
            materials,
        },
    )
}

} // verus!
