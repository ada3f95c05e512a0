//! A zip reader that does not trust the archive's own bookkeeping.
//!
//! A number of published mods are "protected" by corrupting their zip metadata
//! rather than by encrypting anything: the directory says "encrypted" while the
//! local headers say otherwise, the method field is wrong, and the CRCs are made
//! up. The payload itself is untouched. So this reader takes names, sizes and
//! offsets from the central directory, reads the bytes at the local header, and
//! decides store-vs-deflate by trying it rather than by believing the method
//! field.

use crate::bytes::{can_read, copy, le16, le32, le64, readable, u16_at};
use crate::cityhash::{fetch32, fetch64};
use crate::hashfs::{data_of, truncated, truncation, Fault, ScsError};
use crate::harvest::four;
use crate::packing::{deflate_inflate, deflate_inflated, outcome};
use crate::text::{lossy, utf8_lossy};
use vstd::prelude::*;

verus! {

pub struct Entry {
    pub name: String,
    pub method: u16,
    pub flag: u16,
    pub csize: u64,
    pub usize_: u64,
    pub local_offset: u64,
    /// from the central directory, as a fallback when the local header has been
    /// overwritten
    pub name_len: u16,
}

#[verifier::ext_equal]
pub struct EntryView {
    pub name: Seq<char>,
    pub method: u16,
    pub flag: u16,
    pub csize: u64,
    pub usize_: u64,
    pub local_offset: u64,
    pub name_len: u16,
}

impl View for Entry {
    type V = EntryView;

    open spec fn view(&self) -> EntryView {
        EntryView {
            name: self.name@,
            method: self.method,
            flag: self.flag,
            csize: self.csize,
            usize_: self.usize_,
            local_offset: self.local_offset,
            name_len: self.name_len,
        }
    }
}

pub open spec fn entry_views(v: Seq<Entry>) -> Seq<EntryView> {
    Seq::new(v.len(), |i: int| v[i]@)
}

pub struct RawZip {
    /// the whole archive
    pub data: Vec<u8>,
    pub entries: Vec<Entry>,
    /// how many entries claim to be encrypted (flag bit 0)
    pub flagged_encrypted: usize,
    /// how many entries disagree with their own local header
    pub inconsistent: usize,
}

// -------------------------------------------------------- the directory ---

/// The last place in `lo..hi` where the four bytes `P K c d` stand.
pub open spec fn last_mark(b: Seq<u8>, lo: int, hi: int, c: u8, d: u8) -> Option<int>
    decreases hi - lo,
{
    if hi <= lo {
        None
    } else if four(b, hi - 1, 0x50, 0x4b, c, d) {
        Some(hi - 1)
    } else {
        last_mark(b, lo, hi - 1, c, d)
    }
}

pub proof fn lemma_last_mark(b: Seq<u8>, lo: int, hi: int, c: u8, d: u8)
    ensures
        last_mark(b, lo, hi, c, d) matches Some(i) ==> lo <= i < hi && four(b, i, 0x50, 0x4b, c, d),
    decreases hi - lo,
{
    if hi > lo && !four(b, hi - 1, 0x50, 0x4b, c, d) {
        lemma_last_mark(b, lo, hi - 1, c, d);
    }
}

fn marked(b: &[u8], i: usize, c: u8, d: u8) -> (r: bool)
    requires
        i + 4 <= b.len(),
    ensures
        r == four(b@, i as int, 0x50, 0x4b, c, d),
{
    b[i] == 0x50 && b[i + 1] == 0x4b && b[i + 2] == c && b[i + 3] == d
}

fn find_mark(b: &[u8], lo: usize, hi: usize, c: u8, d: u8) -> (r: Option<usize>)
    requires
        hi + 4 <= b.len() + 1,
    ensures
        match r {
            Some(i) => last_mark(b@, lo as int, hi as int, c, d) == Some(i as int),
            None => last_mark(b@, lo as int, hi as int, c, d) is None,
        },
{
    let mut k: usize = hi;
    while k > lo
        invariant
            k <= hi,
            hi + 4 <= b.len() + 1,
            last_mark(b@, lo as int, hi as int, c, d) == last_mark(
                b@,
                lo as int,
                k as int,
                c,
                d,
            ),
        decreases k,
    {
        if marked(b, k - 1, c, d) {
            return Some(k - 1);
        }
        k = k - 1;
    }
    None
}

/// Where the last 66000 bytes begin: the end-of-directory record lies within
/// 64 KiB of the end, since its comment field is 16-bit.
pub open spec fn window(b: Seq<u8>) -> int {
    if b.len() < 66_000 {
        0
    } else {
        b.len() - 66_000
    }
}

/// The end-of-directory record: the last signature counts, since a stray one
/// may stand inside compressed data.
pub open spec fn end_record(b: Seq<u8>) -> Option<int> {
    last_mark(b, window(b), b.len() - 21, 5, 6)
}

/// Where the central directory begins, or why that cannot be told. In a Zip64
/// archive the 32-bit fields saturate and the real number lives elsewhere.
pub open spec fn directory_start(b: Seq<u8>, e: int) -> Result<u64, Fault> {
    let plain = le32(b, e + 16) as u64;
    if plain != 0xffff_ffff && le16(b, e + 10) != 0xffff {
        Ok(plain)
    } else {
        match last_mark(b, window(b), e, 6, 7) {
            None => Ok(plain),
            Some(loc) => {
                let z = le64(b, loc + 8) as int;
                if !readable(b, z, 56) {
                    Err(truncated())
                } else if four(b, z, 0x50, 0x4b, 6, 6) {
                    Ok(le64(b, z + 48))
                } else {
                    Ok(plain)
                }
            },
        }
    }
}

/// The bytes of the central directory that are actually there: these archives
/// overstate its size.
pub open spec fn directory(b: Seq<u8>, start: u64, size: u32) -> Seq<u8> {
    if start >= b.len() {
        Seq::empty()
    } else if start + size <= b.len() {
        b.subrange(start as int, start + size)
    } else {
        b.skip(start as int)
    }
}

/// Whether a directory entry, with its whole name, stands at `p`.
pub open spec fn entry_stands(cd: Seq<u8>, p: int) -> bool {
    &&& 0 <= p
    &&& p + 46 <= cd.len()
    &&& four(cd, p, 0x50, 0x4b, 1, 2)
    &&& p + 46 + le16(cd, p + 28) <= cd.len()
}

pub open spec fn entry_at(cd: Seq<u8>, p: int) -> EntryView {
    let n = le16(cd, p + 28);
    EntryView {
        name: utf8_lossy(cd.subrange(p + 46, p + 46 + n)),
        method: le16(cd, p + 10),
        flag: le16(cd, p + 8),
        csize: le32(cd, p + 20) as u64,
        usize_: le32(cd, p + 24) as u64,
        local_offset: le32(cd, p + 42) as u64,
        name_len: n,
    }
}

pub open spec fn entry_size(cd: Seq<u8>, p: int) -> int {
    46 + le16(cd, p + 28) + le16(cd, p + 30) + le16(cd, p + 32)
}

/// The entries from `p` on, up to the first that is not there.
pub open spec fn entries_from(cd: Seq<u8>, p: int) -> Seq<EntryView>
    decreases cd.len() + 0x40000 - p,
{
    if entry_stands(cd, p) {
        seq![entry_at(cd, p)] + entries_from(cd, p + entry_size(cd, p))
    } else {
        Seq::empty()
    }
}

/// Whether an entry claims to be encrypted.
pub open spec fn flagged(e: EntryView) -> bool {
    e.flag & 1 != 0
}

/// Whether the local header of an entry contradicts the directory. One without
/// its signature has been tampered with; one beyond the end cannot be judged.
pub open spec fn contradicted(b: Seq<u8>, e: EntryView) -> bool {
    let o = e.local_offset as int;
    readable(b, o, 30) && (!four(b, o, 0x50, 0x4b, 3, 4) || le16(b, o + 6) != e.flag || le16(
        b,
        o + 8,
    ) != e.method)
}

pub open spec fn count_flagged(v: Seq<EntryView>) -> nat
    decreases v.len(),
{
    if v.len() == 0 {
        0
    } else {
        count_flagged(v.drop_last()) + (if flagged(v.last()) {
            1nat
        } else {
            0
        })
    }
}

pub open spec fn count_contradicted(b: Seq<u8>, v: Seq<EntryView>) -> nat
    decreases v.len(),
{
    if v.len() == 0 {
        0
    } else {
        count_contradicted(b, v.drop_last()) + (if contradicted(b, v.last()) {
            1nat
        } else {
            0
        })
    }
}

/// The first `n` of a list, or all of it.
pub open spec fn first_few(v: Seq<EntryView>, n: int) -> Seq<EntryView> {
    if v.len() < n {
        v
    } else {
        v.take(n)
    }
}

/// What a zip's directory says, or why it cannot be read. A few local headers
/// are sampled to see whether it tells the truth.
#[verifier::ext_equal]
pub struct Listing {
    pub entries: Seq<EntryView>,
    pub flagged_encrypted: nat,
    pub inconsistent: nat,
}

pub open spec fn listing(b: Seq<u8>) -> Result<Listing, Fault> {
    match end_record(b) {
        None => Err(Fault::Io("no zip end-of-directory"@)),
        Some(e) => match directory_start(b, e) {
            Err(f) => Err(f),
            Ok(start) => {
                let v = entries_from(directory(b, start, le32(b, e + 12)), 0);
                Ok(
                    Listing {
                        entries: v,
                        flagged_encrypted: count_flagged(v),
                        inconsistent: count_contradicted(b, first_few(v, 32)),
                    },
                )
            },
        },
    }
}

impl View for RawZip {
    type V = Listing;

    open spec fn view(&self) -> Listing {
        Listing {
            entries: entry_views(self.entries@),
            flagged_encrypted: self.flagged_encrypted as nat,
            inconsistent: self.inconsistent as nat,
        }
    }
}

fn find_start(b: &[u8], e: usize) -> (r: Result<u64, ScsError>)
    requires
        e + 22 <= b.len(),
        end_record(b@) == Some(e as int),
    ensures
        match r {
            Ok(s) => directory_start(b@, e as int) == Ok::<u64, Fault>(s),
            Err(f) => directory_start(b@, e as int) == Err::<u64, Fault>(f@),
        },
{
    let plain: u64 = fetch32(b, e + 16) as u64;
    if plain != 0xffff_ffff && u16_at(b, e + 10) != 0xffff {
        return Ok(plain);
    }
    let lo: usize = if b.len() < 66_000 {
        0
    } else {
        b.len() - 66_000
    };
    proof {
        lemma_last_mark(b@, window(b@), e as int, 6, 7);
    }
    match find_mark(b, lo, e, 6, 7) {
        None => Ok(plain),
        Some(loc) => {
            let z: u64 = fetch64(b, loc + 8);
            if !can_read(b, z, 56) {
                Err(truncation())
            } else {
                let z: usize = z as usize;
                if marked(b, z, 6, 6) {
                    Ok(fetch64(b, z + 48))
                } else {
                    Ok(plain)
                }
            }
        },
    }
}

fn read_entries(cd: &[u8]) -> (r: Vec<Entry>)
    ensures
        entry_views(r@) == entries_from(cd@, 0),
{
    let mut r: Vec<Entry> = Vec::new();
    let len: usize = cd.len();
    let mut p: usize = 0;
    let mut go = true;
    assert(entry_views(r@) + entries_from(cd@, 0) =~= entries_from(cd@, 0));
    while go
        invariant
            len == cd@.len(),
            go ==> entry_views(r@) + entries_from(cd@, p as int) == entries_from(cd@, 0),
            !go ==> entry_views(r@) == entries_from(cd@, 0),
            p <= len,
        decreases len - p, (if go { 1int } else { 0 }),
    {
        if len - p < 46 || !marked(cd, p, 1, 2) || len - p - 46 < u16_at(
            cd,
            p + 28,
        ) as usize {
            go = false;
            assert(entry_views(r@) + Seq::<EntryView>::empty() =~= entry_views(r@));
        } else {
            let n: u16 = u16_at(cd, p + 28);
            let from: usize = p + 46;
            let e = Entry {
                name: lossy(&cd[from..from + n as usize]),
                method: u16_at(cd, p + 10),
                flag: u16_at(cd, p + 8),
                csize: fetch32(cd, p + 20) as u64,
                usize_: fetch32(cd, p + 24) as u64,
                local_offset: fetch32(cd, p + 42) as u64,
                name_len: n,
            };
            let ghost before = entry_views(r@);
            let ghost here = entry_at(cd@, p as int);
            assert(e@ =~= here);
            r.push(e);
            assert(entry_views(r@) =~= before.push(here));
            let step: usize = 46 + n as usize + u16_at(cd, p + 30) as usize + u16_at(
                cd,
                p + 32,
            ) as usize;
            let ghost rest = entries_from(cd@, p + entry_size(cd@, p as int));
            assert(before.push(here) + rest =~= before + (seq![here] + rest));
            if step > len - p {
                // nothing can stand behind the end
                assert(rest =~= Seq::<EntryView>::empty());
                assert(before.push(here) + rest =~= before.push(here));
                go = false;
            } else {
                p = p + step;
            }
        }
    }
    r
}

fn sample(b: &[u8], e: &Entry) -> (r: bool)
    ensures
        r == contradicted(b@, e@),
{
    if !can_read(b, e.local_offset, 30) {
        return false;
    }
    let o: usize = e.local_offset as usize;
    !marked(b, o, 3, 4) || u16_at(b, o + 6) != e.flag || u16_at(b, o + 8) != e.method
}

/// Reads a zip's directory.
pub fn read_directory(b: &[u8]) -> (r: Result<(Vec<Entry>, usize, usize), ScsError>)
    ensures
        match r {
            Ok(d) => listing(b@) == Ok::<Listing, Fault>(
                (Listing {
                    entries: entry_views(d.0@),
                    flagged_encrypted: d.1 as nat,
                    inconsistent: d.2 as nat,
                }),
            ),
            Err(f) => listing(b@) == Err::<Listing, Fault>(f@),
        },
{
    let len: usize = b.len();
    let lo: usize = if len < 66_000 {
        0
    } else {
        len - 66_000
    };
    let hi: usize = if len < 21 {
        0
    } else {
        len - 21
    };
    proof {
        lemma_last_mark(b@, window(b@), len - 21, 5, 6);
    }
    let found: Option<usize> = if len < 22 {
        None
    } else {
        find_mark(b, lo, hi, 5, 6)
    };
    let e: usize = match found {
        None => {
            return Err(ScsError::Io("no zip end-of-directory".to_owned()));
        },
        Some(e) => e,
    };
    let start: u64 = match find_start(b, e) {
        Ok(s) => s,
        Err(f) => {
            return Err(f);
        },
    };
    let size: u32 = fetch32(b, e + 12);
    let cd: &[u8] = if start >= len as u64 {
        let c = &b[0..0];
        assert(c@ =~= Seq::<u8>::empty());
        c
    } else {
        let from: usize = start as usize;
        if size as u64 <= (len - from) as u64 {
            &b[from..from + size as usize]
        } else {
            let c = &b[from..len];
            assert(c@ =~= b@.skip(from as int));
            c
        }
    };
    assert(cd@ == directory(b@, start, size));
    let entries = read_entries(cd);
    let ghost all = entry_views(entries@);
    let mut flagged_encrypted: usize = 0;
    let mut i: usize = 0;
    while i < entries.len()
        invariant
            i <= entries@.len(),
            all == entry_views(entries@),
            flagged_encrypted == count_flagged(all.take(i as int)),
            flagged_encrypted <= i,
        decreases entries@.len() - i,
    {
        assert(all.take(i + 1).drop_last() =~= all.take(i as int));
        if entries[i].flag & 1 != 0 {
            flagged_encrypted = flagged_encrypted + 1;
        }
        i = i + 1;
    }
    assert(all.take(i as int) =~= all);
    let few: usize = if entries.len() < 32 {
        entries.len()
    } else {
        32
    };
    let mut inconsistent: usize = 0;
    let mut i: usize = 0;
    while i < few
        invariant
            i <= few <= entries@.len(),
            all == entry_views(entries@),
            inconsistent == count_contradicted(b@, all.take(i as int)),
            inconsistent <= i,
        decreases few - i,
    {
        assert(all.take(i + 1).drop_last() =~= all.take(i as int));
        if sample(b, &entries[i]) {
            inconsistent = inconsistent + 1;
        }
        i = i + 1;
    }
    assert(all.take(few as int) =~= first_few(all, 32));
    Ok((entries, flagged_encrypted, inconsistent))
}

// -------------------------------------------------------------- payload ---

/// Where an entry's payload begins: behind the local header, its name and its
/// extra field. Where the header has been overwritten and its lengths wiped, the
/// directory's name length stands in.
pub open spec fn payload_start(b: Seq<u8>, e: EntryView) -> int {
    let o = e.local_offset as int;
    let n = le16(b, o + 26);
    let x = le16(b, o + 28);
    if !four(b, o, 0x50, 0x4b, 3, 4) && (n == 0 || n > 4096 || x > 4096) {
        o + 30 + e.name_len
    } else {
        o + 30 + n + x
    }
}

/// The stored bytes of an entry.
pub open spec fn blob(b: Seq<u8>, e: EntryView) -> Option<Seq<u8>> {
    let s = payload_start(b, e);
    if !readable(b, e.local_offset as int, 30) {
        None
    } else if e.csize == 0 {
        Some(Seq::empty())
    } else if readable(b, s, e.csize as int) {
        Some(b.subrange(s, s + e.csize))
    } else {
        None
    }
}

/// What an entry holds, given what inflating its stored bytes gave. The declared
/// method is not believed: where the sizes are the same, the data counts as
/// deflated only if inflating it gives that size again.
pub open spec fn decided(
    e: EntryView,
    stored: Seq<u8>,
    inflated: Result<Seq<u8>, Seq<char>>,
) -> Result<Seq<u8>, Fault> {
    match inflated {
        Ok(v) => if e.csize != e.usize_ || v.len() == e.usize_ {
            Ok(v)
        } else {
            Ok(stored)
        },
        Err(m) => if e.csize == e.usize_ {
            Ok(stored)
        } else {
            Err(Fault::Io(m))
        },
    }
}

pub open spec fn content(b: Seq<u8>, e: EntryView) -> Result<Seq<u8>, Fault> {
    match blob(b, e) {
        None => Err(truncated()),
        Some(s) => decided(e, s, deflate_inflated(s)),
    }
}

/// Decides by result, not by the declared method.
pub fn decide(e: &Entry, stored: Vec<u8>, inflated: Result<Vec<u8>, String>) -> (r: Result<
    Vec<u8>,
    ScsError,
>)
    ensures
        data_of(r) == decided(e@, stored@, outcome(inflated)),
{
    match inflated {
        Ok(v) => if e.csize != e.usize_ || v.len() as u64 == e.usize_ {
            Ok(v)
        } else {
            Ok(stored)
        },
        Err(m) => if e.csize == e.usize_ {
            Ok(stored)
        } else {
            Err(ScsError::Io(m))
        },
    }
}

impl RawZip {
    pub fn open(data: Vec<u8>) -> (r: Result<RawZip, ScsError>)
        ensures
            match r {
                Ok(z) => listing(data@) == Ok::<Listing, Fault>(z@) && z.data@ == data@,
                Err(f) => listing(data@) == Err::<Listing, Fault>(f@),
            },
    {
        match read_directory(data.as_slice()) {
            Ok((entries, flagged_encrypted, inconsistent)) => Ok(
                RawZip { data, entries, flagged_encrypted, inconsistent },
            ),
            Err(f) => Err(f),
        }
    }

    /// True when the archive claims to be encrypted but its local headers
    /// disagree - the signature of a metadata-only "lock".
    pub fn is_falsely_locked(&self) -> (r: bool)
        ensures
            r == locked_falsely(self@),
    {
        self.flagged_encrypted > 0 && self.inconsistent > 0
    }

    pub fn read(&self, i: usize) -> (r: Result<Vec<u8>, ScsError>)
        requires
            i < self.entries@.len(),
        ensures
            data_of(r) == content(self.data@, self.entries@[i as int]@),
    {
        let e = &self.entries[i];
        let b = self.data.as_slice();
        if !can_read(b, e.local_offset, 30) {
            return Err(truncation());
        }
        let o: usize = e.local_offset as usize;
        let mut nlen: u64 = u16_at(b, o + 26) as u64;
        let mut elen: u64 = u16_at(b, o + 28) as u64;
        if !marked(b, o, 3, 4) && (nlen == 0 || nlen > 4096 || elen > 4096) {
            nlen = e.name_len as u64;
            elen = 0;
        }
        let len: usize = b.len();
        let room: u64 = (len - o - 30) as u64;
        let stored: Vec<u8> = if e.csize == 0 {
            Vec::new()
        } else {
            if nlen + elen > room || e.csize > room - nlen - elen {
                return Err(truncation());
            }
            let s: usize = o + 30 + (nlen + elen) as usize;
            copy(&b[s..s + e.csize as usize])
        };
        assert(blob(b@, e@) == Some(stored@));
        let inflated = deflate_inflate(stored.as_slice());
        decide(e, stored, inflated)
    }
}

pub open spec fn locked_falsely(l: Listing) -> bool {
    l.flagged_encrypted > 0 && l.inconsistent > 0
}

/// A zip that is consistent with itself is never taken for a falsely locked
/// one, whatever its flags say.
pub proof fn a_consistent_zip_is_not_falsely_locked(b: Seq<u8>)
    requires
        listing(b) is Ok,
        forall|i: int|
            0 <= i < listing(b)->Ok_0.entries.len() ==> !contradicted(
                b,
                #[trigger] listing(b)->Ok_0.entries[i],
            ),
    ensures
        !locked_falsely(listing(b)->Ok_0),
{
    lemma_none_contradicted(b, first_few(listing(b)->Ok_0.entries, 32));
}

proof fn lemma_none_contradicted(b: Seq<u8>, v: Seq<EntryView>)
    requires
        forall|i: int| 0 <= i < v.len() ==> !contradicted(b, #[trigger] v[i]),
    ensures
        count_contradicted(b, v) == 0,
    decreases v.len(),
{
    if v.len() > 0 {
        lemma_none_contradicted(b, v.drop_last());
    }
}

} // verus!
