//! HashFS v1 archives.
//!
//! ```text
//! header   "SCS#" | u16 version | u16 salt | [4] hash method ("CITY")
//!          u32 entry_count | u32 entry_table_start
//! entry    u64 hash | u64 offset | u32 flags | u32 crc | u32 size | u32 zsize   (32 bytes)
//! flags    bit0 = directory, bit1 = zlib compressed
//! ```
//!
//! Entries are keyed by [`crate::cityhash::city_hash64`] of the path, with no
//! leading slash; the archive root is the empty path. A directory entry's payload
//! is plain UTF-8 text, one child name per line, `*` prefixed for subdirectories.
//!
//! Not every entry is reachable from the root: a mod may ship files that no
//! directory listing mentions. Those can only be recovered by scanning the files
//! that ARE reachable for path-like strings ("deep" mode), and whatever is still
//! unresolved comes out under its hash.

use crate::bytes::{copy, le16, le32, le64, readable, u16_at};
use crate::cityhash::{city_hash, city_hash64, fetch32, fetch64};
use crate::packing::{zlib_inflate, zlib_inflated};
use crate::text::{cat, cat3, decimal, unroot_str, unrooted, write_decimal};
use std::collections::HashMap;
use vstd::prelude::*;

verus! {

// -------------------------------------------------------------- entries ---

#[derive(Clone, Copy, Debug, PartialEq, Eq, Structural)]
pub struct Entry {
    pub hash: u64,
    pub offset: u64,
    pub flags: u32,
    pub size: u32,
    pub zsize: u32,
}

impl Entry {
    pub open spec fn directory(self) -> bool {
        self.flags & 1 != 0
    }

    pub open spec fn compressed(self) -> bool {
        self.flags & 2 != 0
    }

    pub fn is_dir(&self) -> (r: bool)
        ensures
            r == self.directory(),
    {
        self.flags & 1 != 0
    }

    pub fn is_compressed(&self) -> (r: bool)
        ensures
            r == self.compressed(),
    {
        self.flags & 2 != 0
    }
}

/// Why an archive could not be opened or read.
#[derive(Debug)]
pub enum ScsError {
    Io(String),
    NotHashFs,
    UnsupportedVersion(u16),
    Inflate(String),
    /// The zip declares its entries encrypted. The flag is the author saying the
    /// mod is not to be opened by other tools, so it is honoured rather than
    /// worked around.
    Encrypted,
}

pub enum Fault {
    Io(Seq<char>),
    NotHashFs,
    UnsupportedVersion(u16),
    Inflate(Seq<char>),
    Encrypted,
}

impl View for ScsError {
    type V = Fault;

    open spec fn view(&self) -> Fault {
        match self {
            ScsError::Io(m) => Fault::Io(m@),
            ScsError::NotHashFs => Fault::NotHashFs,
            ScsError::UnsupportedVersion(v) => Fault::UnsupportedVersion(*v),
            ScsError::Inflate(m) => Fault::Inflate(m@),
            ScsError::Encrypted => Fault::Encrypted,
        }
    }
}

impl Fault {
    pub open spec fn text(self) -> Seq<char> {
        match self {
            Fault::Io(m) => "io error: "@ + m,
            Fault::NotHashFs => {
                "not an SCS# archive (a plain .zip .scs is not supported yet)"@
            },
            Fault::UnsupportedVersion(v) => "this is a HashFS v"@ + decimal(v as nat)
                + " archive (game 1.50+); only v1 is implemented so far"@,
            Fault::Inflate(m) => "decompression failed: "@ + m,
            Fault::Encrypted => {
                "this .scs is marked protected by its author - ask them for a copy you are allowed to convert"@
            },
        }
    }
}

impl ScsError {
    pub fn message(&self) -> (r: String)
        ensures
            r@ == self@.text(),
    {
        match self {
            ScsError::Io(m) => cat("io error: ", m.as_str()),
            ScsError::NotHashFs => {
                "not an SCS# archive (a plain .zip .scs is not supported yet)".to_owned()
            },
            ScsError::UnsupportedVersion(v) => cat3(
                "this is a HashFS v",
                write_decimal(*v as u64).as_str(),
                " archive (game 1.50+); only v1 is implemented so far",
            ),
            ScsError::Inflate(m) => cat("decompression failed: ", m.as_str()),
            ScsError::Encrypted => {
                "this .scs is marked protected by its author - ask them for a copy you are allowed to convert".to_owned()
            },
        }
    }
}

/// What reading past the end of a file is called.
pub open spec fn truncated() -> Fault {
    Fault::Io("failed to fill whole buffer"@)
}

pub fn truncation() -> (r: ScsError)
    ensures
        r@ == truncated(),
{
    ScsError::Io("failed to fill whole buffer".to_owned())
}

// ------------------------------------------------------------- archives ---

pub struct HashFs {
    /// the whole archive
    pub data: Vec<u8>,
    pub version: u16,
    pub salt: u16,
    pub entries: HashMap<u64, Entry>,
    /// the keys of `entries`, in the order of the table
    pub order: Vec<u64>,
}

/// An archive: its version and salt, its bytes, and its entries with their keys in
/// table order.
#[verifier::ext_equal]
pub struct Table {
    pub version: u16,
    pub salt: u16,
    pub bytes: Seq<u8>,
    pub entries: Map<u64, Entry>,
    pub order: Seq<u64>,
}

impl View for HashFs {
    type V = Table;

    open spec fn view(&self) -> Table {
        Table {
            version: self.version,
            salt: self.salt,
            bytes: self.data@,
            entries: self.entries@,
            order: self.order@,
        }
    }
}

impl Table {
    /// Each key stands in `order` exactly once, and is its entry's own hash.
    pub open spec fn wf(self) -> bool {
        &&& self.order.no_duplicates()
        &&& forall|h: u64| #[trigger] self.entries.contains_key(h) <==> self.order.contains(h)
        &&& forall|h: u64| #[trigger]
            self.entries.contains_key(h) ==> self.entries[h].hash == h
    }

    /// The entry that a path leads to.
    pub open spec fn at(self, path: Seq<char>) -> Option<Entry> {
        if self.entries.contains_key(path_hash(path)) {
            Some(self.entries[path_hash(path)])
        } else {
            None
        }
    }

    /// The stored bytes of an entry.
    pub open spec fn stored(self, e: Entry) -> Option<Seq<u8>> {
        if e.zsize == 0 {
            Some(Seq::empty())
        } else if readable(self.bytes, e.offset as int, e.zsize as int) {
            Some(self.bytes.subrange(e.offset as int, e.offset + e.zsize))
        } else {
            None
        }
    }

    /// What an entry holds.
    pub open spec fn payload(self, e: Entry) -> Result<Seq<u8>, Fault> {
        match self.stored(e) {
            None => Err(truncated()),
            Some(b) => if e.compressed() {
                unpacked(zlib_inflated(b))
            } else {
                Ok(b)
            },
        }
    }
}

/// An entry's payload, given what the decoder made of the stored bytes.
pub open spec fn unpacked(r: Result<Seq<u8>, Seq<char>>) -> Result<Seq<u8>, Fault> {
    match r {
        Ok(v) => Ok(v),
        Err(m) => Err(Fault::Inflate(m)),
    }
}

/// The key of a path.
#[verifier::opaque]
pub open spec fn path_hash(path: Seq<char>) -> u64 {
    city_hash(vstd::utf8::encode_utf8(path))
}

pub fn hash_path(path: &str) -> (r: u64)
    ensures
        r == path_hash(path@),
{
    reveal(path_hash);
    city_hash64(path.as_bytes())
}

pub open spec fn data_of(r: Result<Vec<u8>, ScsError>) -> Result<Seq<u8>, Fault> {
    match r {
        Ok(v) => Ok(v@),
        Err(e) => Err(e@),
    }
}

/// The entry record at `o`.
pub open spec fn entry_at(b: Seq<u8>, o: int) -> Entry {
    Entry {
        hash: le64(b, o),
        offset: le64(b, o + 8),
        flags: le32(b, o + 16),
        size: le32(b, o + 24),
        zsize: le32(b, o + 28),
    }
}

/// The first `n` records from `o`, by their keys. Of two with one key the later
/// counts.
pub open spec fn entries_in(b: Seq<u8>, o: int, n: nat) -> Map<u64, Entry>
    decreases n,
{
    if n == 0 {
        Map::empty()
    } else {
        let e = entry_at(b, o + 32 * (n - 1));
        entries_in(b, o, (n - 1) as nat).insert(e.hash, e)
    }
}

/// The keys of the first `n` records, each where it comes first.
pub open spec fn keys_in(b: Seq<u8>, o: int, n: nat) -> Seq<u64>
    decreases n,
{
    if n == 0 {
        Seq::empty()
    } else {
        let h = entry_at(b, o + 32 * (n - 1)).hash;
        let k = keys_in(b, o, (n - 1) as nat);
        if k.contains(h) {
            k
        } else {
            k.push(h)
        }
    }
}

/// The archive that some bytes are, or why they are none.
pub open spec fn opened(b: Seq<u8>) -> Result<Table, Fault> {
    if b.len() < 20 {
        Err(truncated())
    } else if b.take(4) != seq![0x53u8, 0x43u8, 0x53u8, 0x23u8] {
        Err(Fault::NotHashFs)
    } else if le16(b, 4) != 1 {
        Err(Fault::UnsupportedVersion(le16(b, 4)))
    } else {
        let count = le32(b, 12);
        let start = le32(b, 16);
        if count > 0 && !readable(b, start as int, 32 * count) {
            Err(truncated())
        } else {
            Ok(
                Table {
                    version: le16(b, 4),
                    salt: le16(b, 6),
                    bytes: b,
                    entries: entries_in(b, start as int, count as nat),
                    order: keys_in(b, start as int, count as nat),
                },
            )
        }
    }
}

fn read_record(b: &[u8], o: usize) -> (r: Entry)
    requires
        o + 32 <= b.len(),
    ensures
        r == entry_at(b@, o as int),
{
    Entry {
        hash: fetch64(b, o),
        offset: fetch64(b, o + 8),
        flags: fetch32(b, o + 16),
        size: fetch32(b, o + 24),
        zsize: fetch32(b, o + 28),
    }
}

proof fn lemma_keys(b: Seq<u8>, o: int, n: nat)
    ensures
        keys_in(b, o, n).no_duplicates(),
        forall|h: u64| #[trigger]
            entries_in(b, o, n).contains_key(h) <==> keys_in(b, o, n).contains(h),
        forall|h: u64| #[trigger]
            entries_in(b, o, n).contains_key(h) ==> entries_in(b, o, n)[h].hash == h,
    decreases n,
{
    if n > 0 {
        lemma_keys(b, o, (n - 1) as nat);
        let k = keys_in(b, o, (n - 1) as nat);
        let h = entry_at(b, o + 32 * (n - 1)).hash;
        let m = entries_in(b, o, (n - 1) as nat);
        assert(entries_in(b, o, n) == m.insert(h, entry_at(b, o + 32 * (n - 1))));
        assert forall|g: u64| #[trigger]
            entries_in(b, o, n).contains_key(g) <==> m.contains_key(g) || g == h by {}
        assert forall|g: u64| m.contains_key(g) implies #[trigger] m[g].hash == g by {}
        if !k.contains(h) {
            assert(k.push(h)[k.len() as int] == h);
            assert forall|g: u64| k.push(h).contains(g) <==> k.contains(g) || g == h by {
                if k.contains(g) {
                    let i = k.index_of(g);
                    assert(k.push(h)[i] == g);
                }
            }
        }
    }
}

impl HashFs {
    pub open spec fn wf(self) -> bool {
        self@.wf()
    }

    pub fn open(data: Vec<u8>) -> (r: Result<HashFs, ScsError>)
        ensures
            match r {
                Ok(fs) => {
                    &&& opened(data@) == Ok::<Table, Fault>(fs@)
                    &&& fs.version == 1
                    &&& fs.salt == le16(data@, 6)
                    &&& fs.wf()
                },
                Err(e) => opened(data@) == Err::<Table, Fault>(e@),
            },
    {
        broadcast use vstd::std_specs::hash::group_hash_axioms;

        let n: usize = data.len();
        if n < 20 {
            return Err(truncation());
        }
        if data[0] != 0x53 || data[1] != 0x43 || data[2] != 0x53 || data[3] != 0x23 {
            proof {
                let s = data@.take(4);
                assert(s[0] == data@[0] && s[1] == data@[1] && s[2] == data@[2] && s[3]
                    == data@[3]);
            }
            return Err(ScsError::NotHashFs);
        }
        assert(data@.take(4) =~= seq![0x53u8, 0x43u8, 0x53u8, 0x23u8]);
        let version: u16 = u16_at(data.as_slice(), 4);
        let salt: u16 = u16_at(data.as_slice(), 6);
        if version != 1 {
            return Err(ScsError::UnsupportedVersion(version));
        }
        let count: u32 = fetch32(data.as_slice(), 12);
        let start: u32 = fetch32(data.as_slice(), 16);
        if count > 0 && start as u64 + 32 * (count as u64) > n as u64 {
            return Err(truncation());
        }
        let mut entries: HashMap<u64, Entry> = HashMap::new();
        let mut order: Vec<u64> = Vec::new();
        let mut i: u32 = 0;
        assert(entries@ =~= entries_in(data@, start as int, 0));
        while i < count
            invariant
                i <= count,
                n == data@.len(),
                count > 0 ==> start + 32 * count <= n,
                entries@ == entries_in(data@, start as int, i as nat),
                order@ == keys_in(data@, start as int, i as nat),
            decreases count - i,
        {
            broadcast use vstd::std_specs::hash::group_hash_axioms;

            let e = read_record(data.as_slice(), (start as u64 + 32 * (i as u64)) as usize);
            proof {
                lemma_keys(data@, start as int, i as nat);
            }
            if !entries.contains_key(&e.hash) {
                order.push(e.hash);
            }
            entries.insert(e.hash, e);
            i = i + 1;
        }
        proof {
            lemma_keys(data@, start as int, count as nat);
        }
        let fs = HashFs { data, version, salt, entries, order };
        Ok(fs)
    }

    /// The entry that a path leads to.
    pub fn entry(&self, path: &str) -> (r: Option<Entry>)
        ensures
            r == self@.at(path@),
    {
        broadcast use vstd::std_specs::hash::group_hash_axioms;

        match self.entries.get(&hash_path(path)) {
            Some(e) => Some(*e),
            None => None,
        }
    }

    pub fn read_entry(&self, e: &Entry) -> (r: Result<Vec<u8>, ScsError>)
        ensures
            data_of(r) == self@.payload(*e),
    {
        if e.zsize != 0 && !crate::bytes::can_read(
            self.data.as_slice(),
            e.offset,
            e.zsize as u64,
        ) {
            return Err(truncation());
        }
        let buf: Vec<u8> = if e.zsize == 0 {
            Vec::new()
        } else {
            let from: usize = e.offset as usize;
            copy(&self.data.as_slice()[from..from + e.zsize as usize])
        };
        assert(self@.stored(*e) == Some(buf@));
        if e.is_compressed() {
            unpack(zlib_inflate(buf.as_slice()))
        } else {
            Ok(buf)
        }
    }

    /// Read one entry by its archive path, if it is there.
    pub fn read_path(&self, path: &str) -> (r: Option<Vec<u8>>)
        ensures
            match r {
                Some(v) => file_at(self@, unrooted(path@)) == Some(v@),
                None => file_at(self@, unrooted(path@)) is None,
            },
    {
        let p = unroot_str(path);
        match self.entry(p.as_str()) {
            None => None,
            Some(e) => if e.is_dir() {
                None
            } else {
                match self.read_entry(&e) {
                    Ok(v) => Some(v),
                    Err(_) => None,
                }
            },
        }
    }
}

/// The file at a path, where there is one that can be read.
pub open spec fn file_at(t: Table, path: Seq<char>) -> Option<Seq<u8>> {
    match t.at(path) {
        Some(e) => if e.directory() {
            None
        } else {
            match t.payload(e) {
                Ok(v) => Some(v),
                Err(_) => None,
            }
        },
        None => None,
    }
}

/// An entry's payload from what the decoder made of the stored bytes.
pub fn unpack(r: Result<Vec<u8>, String>) -> (d: Result<Vec<u8>, ScsError>)
    ensures
        data_of(d) == unpacked(crate::packing::outcome(r)),
{
    match r {
        Ok(v) => Ok(v),
        Err(m) => Err(ScsError::Inflate(m)),
    }
}

} // verus!
