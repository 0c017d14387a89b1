//! The write-ahead log: its header, its frames, the recovery of committed
//! writes from its bytes, and the index from page ids to frame offsets.
//!
//! A log is a 16-byte header followed by frames of `WAL_FRAME_SIZE` bytes.
//! A data frame carries a page image; a commit frame makes the data frames
//! written since the previous commit part of the file.
use vstd::prelude::*;
use vstd::slice::slice_subrange;

use crate::utils::codec::{group_codec, read_u8, read_u32, read_u64, put_u8, put_u32, put_u64, put_bytes, get_u8, get_u32, get_u64, set_u8, set_u32, set_u64, set_bytes};
use crate::storage::constants::PAGE_SIZE;
use crate::storage::error::NexoraStorageError;
use crate::storage::models::PageId;
use crate::storage::page_store::{PageStore, crc32, crc32_of, pages_after_write};

verus! {

broadcast use group_codec;

/// `NXWL` read as a little-endian `u32`.
pub const WAL_MAGIC: u32 = 0x4C57_584E;
pub const WAL_VERSION: u32 = 1;
pub const WAL_HEADER_SIZE: usize = 16;
pub const WAL_INDEX_CAPACITY: usize = 4096;
/// Bytes between a frame's flags and its page image.
pub const WAL_FRAME_PADDING: usize = 7;
/// 8 (page id) + 1 (flags) + padding + the page.
pub const WAL_FRAME_SIZE: usize = 4112;

/// `n` zero bytes.
pub open spec fn zeros(n: nat) -> Seq<u8> {
    Seq::new(n, |i: int| 0u8)
}

fn zero_vec(n: usize) -> (r: Vec<u8>)
    ensures
        r@ == zeros(n as nat),
{
    let mut v: Vec<u8> = Vec::new();
    let mut i: usize = 0;
    while i < n
        invariant
            i <= n,
            v@.len() == i,
            forall|j: int| 0 <= j < i ==> #[trigger] v@[j] == 0,
        decreases n - i,
    {
        v.push(0u8);
        i = i + 1;
    }
    assert(v@ =~= zeros(n as nat));
    v
}

#[derive(Debug, Clone, Copy, PartialEq, Eq, Structural)]
pub struct WALHeader {
    pub magic: u32,
    pub page_size: u32,
    pub version: u32,
    pub checksum: u32,
}

/// The 12 bytes the header checksum covers: magic, page size, version.
pub open spec fn wal_header_prefix(magic: u32, page_size: u32, version: u32) -> Seq<u8> {
    put_u32(put_u32(put_u32(zeros(12), 0, magic), 4, page_size), 8, version)
}

/// The 16 bytes of a header.
pub open spec fn wal_header_bytes(h: WALHeader) -> Seq<u8> {
    put_u32(put_u32(put_u32(put_u32(zeros(16), 0, h.magic), 4, h.page_size), 8, h.version), 12, h.checksum)
}

pub open spec fn view_wal_header(s: Seq<u8>) -> WALHeader {
    WALHeader { magic: read_u32(s, 0), page_size: read_u32(s, 4), version: read_u32(s, 8), checksum: read_u32(s, 12) }
}

/// The header a new log starts with.
pub open spec fn new_wal_header(page_size: u32) -> WALHeader {
    WALHeader {
        magic: WAL_MAGIC,
        page_size,
        version: WAL_VERSION,
        checksum: crc32_of(wal_header_prefix(WAL_MAGIC, page_size, WAL_VERSION)),
    }
}

/// What checking a header gives.
pub open spec fn spec_validate(h: WALHeader) -> Result<(), NexoraStorageError> {
    if h.magic != WAL_MAGIC {
        Err(NexoraStorageError::InvalidMagicBytes)
    } else if h.version != WAL_VERSION {
        Err(NexoraStorageError::UnsupportedVersion(h.version))
    } else if h.page_size != PAGE_SIZE as u32 {
        Err(NexoraStorageError::CorruptWal)
    } else if h.checksum != crc32_of(wal_header_prefix(h.magic, h.page_size, h.version)) {
        Err(NexoraStorageError::CorruptWal)
    } else {
        Ok(())
    }
}

impl WALHeader {
    fn prefix_bytes(magic: u32, page_size: u32, version: u32) -> (r: Vec<u8>)
        ensures
            r@ == wal_header_prefix(magic, page_size, version),
    {
        let mut v = zero_vec(12);
        set_u32(&mut v, 0, magic);
        set_u32(&mut v, 4, page_size);
        set_u32(&mut v, 8, version);
        v
    }

    /// The header of a new log for pages of `page_size` bytes, with its
    /// checksum.
    pub fn new(page_size: u32) -> (r: Self)
        ensures
            r == new_wal_header(page_size),
    {
        let prefix = Self::prefix_bytes(WAL_MAGIC, page_size, WAL_VERSION);
        let checksum = crc32(prefix.as_slice());
        WALHeader { magic: WAL_MAGIC, page_size, version: WAL_VERSION, checksum }
    }

    /// Checks magic, version, page size and checksum, in that order.
    pub fn validate(&self) -> (r: Result<(), NexoraStorageError>)
        ensures
            r == spec_validate(*self),
    {
        if self.magic != WAL_MAGIC {
            return Err(NexoraStorageError::InvalidMagicBytes);
        }
        if self.version != WAL_VERSION {
            return Err(NexoraStorageError::UnsupportedVersion(self.version));
        }
        if self.page_size != PAGE_SIZE as u32 {
            return Err(NexoraStorageError::CorruptWal);
        }
        let prefix = Self::prefix_bytes(self.magic, self.page_size, self.version);
        let computed = crc32(prefix.as_slice());
        if self.checksum != computed {
            return Err(NexoraStorageError::CorruptWal);
        }
        Ok(())
    }

    pub fn as_bytes(&self) -> (r: Vec<u8>)
        ensures
            r@ == wal_header_bytes(*self),
    {
        let mut v = zero_vec(WAL_HEADER_SIZE);
        set_u32(&mut v, 0, self.magic);
        set_u32(&mut v, 4, self.page_size);
        set_u32(&mut v, 8, self.version);
        set_u32(&mut v, 12, self.checksum);
        v
    }

    pub fn from_bytes(buf: &[u8]) -> (r: Self)
        requires
            WAL_HEADER_SIZE <= buf@.len(),
        ensures
            r == view_wal_header(buf@),
    {
        WALHeader { magic: get_u32(buf, 0), page_size: get_u32(buf, 4), version: get_u32(buf, 8), checksum: get_u32(buf, 12) }
    }
}

/// A header read back from its bytes is the header written.
pub proof fn lemma_wal_header_roundtrip(h: WALHeader)
    ensures
        view_wal_header(wal_header_bytes(h)) == h,
        wal_header_bytes(h).len() == WAL_HEADER_SIZE,
{
}

/// The header of a new log passes the check.
pub proof fn lemma_new_wal_header_valid()
    ensures
        spec_validate(new_wal_header(PAGE_SIZE as u32)) is Ok,
{
}

#[derive(Debug, Clone, Copy, PartialEq, Eq, Structural)]
pub enum WALFrameFlag {
    Data,
    Commit,
}

impl WALFrameFlag {
    pub fn to_u8(&self) -> (r: u8)
        ensures
            r == (match *self {
                WALFrameFlag::Data => 0u8,
                WALFrameFlag::Commit => 1u8,
            }),
    {
        match self {
            WALFrameFlag::Data => 0,
            WALFrameFlag::Commit => 1,
        }
    }

    /// Decodes a flags byte; any other byte comes back as the error.
    pub fn try_from(value: u8) -> (r: Result<WALFrameFlag, u8>)
        ensures
            value == 0 ==> r == Ok::<WALFrameFlag, u8>(WALFrameFlag::Data),
            value == 1 ==> r == Ok::<WALFrameFlag, u8>(WALFrameFlag::Commit),
            value > 1 ==> r == Err::<WALFrameFlag, u8>(value),
    {
        match value {
            0 => Ok(WALFrameFlag::Data),
            1 => Ok(WALFrameFlag::Commit),
            v => Err(v),
        }
    }
}

/// One frame: the page it is for, its flags byte, and the page image.
pub struct WALFrame {
    pub page_id: u64,
    pub flags: u8,
    pub page: Vec<u8>,
}

/// The bytes of a frame.
pub open spec fn wal_frame_bytes(page_id: u64, flags: u8, page: Seq<u8>) -> Seq<u8> {
    put_bytes(put_u8(put_u64(zeros(WAL_FRAME_SIZE as nat), 0, page_id), 8, flags), 16, page)
}

impl WALFrame {
    /// A data frame holding `page` for page `page_id`.
    pub fn data(page_id: u64, page: &[u8]) -> (r: Self)
        requires
            page@.len() == PAGE_SIZE,
        ensures
            r.page_id == page_id,
            r.flags == 0,
            r.page@ == page@,
    {
        WALFrame { page_id, flags: WALFrameFlag::Data.to_u8(), page: vstd::slice::slice_to_vec(page) }
    }

    /// A commit frame: no page, page id all ones.
    pub fn commit() -> (r: Self)
        ensures
            r.page_id == u64::MAX,
            r.flags == 1,
            r.page@ == zeros(PAGE_SIZE as nat),
    {
        WALFrame { page_id: u64::MAX, flags: WALFrameFlag::Commit.to_u8(), page: zero_vec(PAGE_SIZE) }
    }

    pub fn as_bytes(&self) -> (r: Vec<u8>)
        requires
            self.page@.len() == PAGE_SIZE,
        ensures
            r@ == wal_frame_bytes(self.page_id, self.flags, self.page@),
    {
        let mut v = zero_vec(WAL_FRAME_SIZE);
        set_u64(&mut v, 0, self.page_id);
        set_u8(&mut v, 8, self.flags);
        set_bytes(&mut v, 16, self.page.as_slice());
        v
    }

    /// The frame whose bytes start at `o` in `buf`.
    pub fn from_bytes(buf: &[u8], o: usize) -> (r: Self)
        requires
            o + WAL_FRAME_SIZE <= buf@.len(),
        ensures
            r.page_id == read_u64(buf@, o as int),
            r.flags == buf@[o + 8],
            r.page@ == buf@.subrange(o + 16, o + WAL_FRAME_SIZE),
    {
        let n = buf.len();
        assert(o + WAL_FRAME_SIZE <= n);
        WALFrame {
            page_id: get_u64(buf, o),
            flags: get_u8(buf, o + 8),
            page: vstd::slice::slice_to_vec(slice_subrange(buf, o + 16, o + WAL_FRAME_SIZE)),
        }
    }
}

/// A frame read back from its bytes is the frame written.
pub proof fn lemma_wal_frame_roundtrip(page_id: u64, flags: u8, page: Seq<u8>)
    requires
        page.len() == PAGE_SIZE,
    ensures
        ({
            let b = wal_frame_bytes(page_id, flags, page);
            &&& b.len() == WAL_FRAME_SIZE
            &&& read_u64(b, 0) == page_id
            &&& b[8] == flags
            &&& b.subrange(16, WAL_FRAME_SIZE as int) == page
        }),
{
    let b = wal_frame_bytes(page_id, flags, page);
    assert(b.subrange(16, WAL_FRAME_SIZE as int) =~= page);
}

/// The first position at or after `i` of a pair with key `k`.
pub open spec fn find_key(list: Seq<(u64, u64)>, k: u64, i: int) -> Option<int>
    decreases list.len() - i,
{
    if i >= list.len() || i < 0 {
        None
    } else if list[i].0 == k {
        Some(i)
    } else {
        find_key(list, k, i + 1)
    }
}

/// `list` with the pair for `k` set to `v`: in place when `k` is there,
/// appended when it is not.
pub open spec fn upsert_pair(list: Seq<(u64, u64)>, k: u64, v: u64) -> Seq<(u64, u64)> {
    match find_key(list, k, 0) {
        Some(i) => list.update(i, (k, v)),
        None => list.push((k, v)),
    }
}

/// The pairs of `items` put into `list` one after the other.
pub open spec fn upsert_all(list: Seq<(u64, u64)>, items: Seq<(u64, u64)>) -> Seq<(u64, u64)>
    decreases items.len(),
{
    if items.len() == 0 {
        list
    } else {
        upsert_all(upsert_pair(list, items[0].0, items[0].1), items.drop_first())
    }
}

/// Where a found key sits, and that nothing before it has the key.
pub proof fn lemma_find_key(list: Seq<(u64, u64)>, k: u64, i: int)
    requires
        0 <= i,
    ensures
        match find_key(list, k, i) {
            Some(j) => i <= j < list.len() && list[j].0 == k && forall|m: int| i <= m < j ==> #[trigger] list[m].0 != k,
            None => forall|m: int| i <= m < list.len() ==> #[trigger] list[m].0 != k,
        },
    decreases list.len() - i,
{
    if i < list.len() {
        lemma_find_key(list, k, i + 1);
    }
}

/// A search that skips positions without the key finds what it finds from
/// the start.
proof fn lemma_find_key_from(list: Seq<(u64, u64)>, k: u64, i: int)
    requires
        0 <= i <= list.len(),
        forall|m: int| 0 <= m < i ==> #[trigger] list[m].0 != k,
    ensures
        find_key(list, k, 0) == find_key(list, k, i),
    decreases i,
{
    if i > 0 {
        lemma_find_key_from(list, k, i - 1);
    }
}

/// Puts the pair (`k`, `v`) into `list` in place of the pair for `k`, or at
/// the end.
fn upsert_vec(list: &mut Vec<(u64, u64)>, k: u64, v: u64)
    ensures
        final(list)@ == upsert_pair(old(list)@, k, v),
{
    let mut i: usize = 0;
    while i < list.len()
        invariant
            i <= list@.len(),
            list@ == old(list)@,
            forall|m: int| 0 <= m < i ==> #[trigger] list@[m].0 != k,
        decreases list@.len() - i,
    {
        if list[i].0 == k {
            proof {
                lemma_find_key_from(list@, k, i as int);
            }
            list[i] = (k, v);
            return;
        }
        i = i + 1;
    }
    proof {
        lemma_find_key_from(list@, k, i as int);
    }
    list.push((k, v));
}

/// How many whole frames follow the header in a log of `len` bytes.
pub open spec fn frame_count(len: int) -> int {
    if len < WAL_HEADER_SIZE {
        0
    } else {
        (len - WAL_HEADER_SIZE) / (WAL_FRAME_SIZE as int)
    }
}

/// The committed and the pending (page id, frame offset) pairs after the
/// first `n` frames of `wal`.
pub open spec fn recover_state(wal: Seq<u8>, n: nat) -> Result<(Seq<(u64, u64)>, Seq<(u64, u64)>), NexoraStorageError>
    decreases n,
{
    if n == 0 {
        Ok((Seq::empty(), Seq::empty()))
    } else {
        match recover_state(wal, (n - 1) as nat) {
            Err(e) => Err(e),
            Ok((committed, pending)) => {
                let off = WAL_HEADER_SIZE + (n - 1) * WAL_FRAME_SIZE;
                let flag = wal[off + 8];
                if flag == 0 {
                    Ok((committed, upsert_pair(pending, read_u64(wal, off), off as u64)))
                } else if flag == 1 {
                    Ok((upsert_all(committed, pending), Seq::empty()))
                } else {
                    Err(NexoraStorageError::CorruptWal)
                }
            },
        }
    }
}

/// What recovering the log `wal` gives: for each page written by a committed
/// data frame, the offset of its last such frame.
pub open spec fn spec_recover(wal: Seq<u8>) -> Result<Seq<(u64, u64)>, NexoraStorageError> {
    match recover_state(wal, frame_count(wal.len() as int) as nat) {
        Err(e) => Err(e),
        Ok((committed, pending)) => Ok(committed),
    }
}

/// Scans the frames of the log `wal` (its header included) and returns, for
/// each page written by a committed data frame, the offset of the last such
/// frame, and where the committed part of the log ends. Data frames after
/// the last commit frame are left out.
pub fn recover(wal: &[u8]) -> (r: Result<(Vec<(u64, u64)>, u64), NexoraStorageError>)
    ensures
        match spec_recover(wal@) {
            Ok(c) => r matches Ok((v, end)) && v@ == c && end == spec_recover_end(wal@),
            Err(e) => r matches Err(x) && x == e,
        },
{
    let mut committed: Vec<(u64, u64)> = Vec::new();
    let mut pending: Vec<(u64, u64)> = Vec::new();
    let len = wal.len();
    if len < WAL_HEADER_SIZE {
        return Ok((committed, WAL_HEADER_SIZE as u64));
    }
    let mut offset: usize = WAL_HEADER_SIZE;
    let mut end: usize = WAL_HEADER_SIZE;
    let ghost mut n: nat = 0;
    while len - offset >= WAL_FRAME_SIZE
        invariant
            len == wal@.len(),
            WAL_HEADER_SIZE <= offset <= len,
            offset == WAL_HEADER_SIZE + n * WAL_FRAME_SIZE,
            n <= frame_count(len as int),
            end == WAL_HEADER_SIZE + committed_frames(wal@, n) * WAL_FRAME_SIZE,
            recover_state(wal@, n) == Ok::<(Seq<(u64, u64)>, Seq<(u64, u64)>), NexoraStorageError>((committed@, pending@)),
        decreases len - offset,
    {
        let frame_page_id = get_u64(wal, offset);
        let flag = match WALFrameFlag::try_from(wal[offset + 8]) {
            Ok(f) => f,
            Err(_) => {
                proof {
                    assert(frame_count(len as int) >= n + 1) by {
                        assert((len - WAL_HEADER_SIZE) / (WAL_FRAME_SIZE as int) >= n + 1) by (nonlinear_arith)
                            requires
                                len - WAL_HEADER_SIZE >= (n + 1) * WAL_FRAME_SIZE,
                        ;
                    }
                    lemma_recover_err_sticks(wal@, n + 1, frame_count(len as int) as nat);
                }
                return Err(NexoraStorageError::CorruptWal);
            },
        };
        match flag {
            WALFrameFlag::Data => {
                upsert_vec(&mut pending, frame_page_id, offset as u64);
            },
            WALFrameFlag::Commit => {
                let ghost c0 = committed@;
                let ghost p0 = pending@;
                let mut i: usize = 0;
                proof {
                    assert(p0.subrange(0, p0.len() as int) =~= p0);
                }
                while i < pending.len()
                    invariant
                        i <= pending@.len(),
                        pending@ == p0,
                        upsert_all(c0, p0) == upsert_all(committed@, p0.subrange(i as int, p0.len() as int)),
                    decreases pending@.len() - i,
                {
                    let (page_id, frame_off) = pending[i];
                    proof {
                        assert(p0.subrange(i as int, p0.len() as int).drop_first() =~= p0.subrange(i + 1, p0.len() as int));
                    }
                    upsert_vec(&mut committed, page_id, frame_off);
                    i = i + 1;
                }
                proof {
                    assert(p0.subrange(i as int, p0.len() as int) =~= Seq::<(u64, u64)>::empty());
                }
                pending = Vec::new();
                end = offset + WAL_FRAME_SIZE;
            },
        }
        proof {
            assert(frame_count(len as int) >= n + 1) by {
                assert((len - WAL_HEADER_SIZE) / (WAL_FRAME_SIZE as int) >= n + 1) by (nonlinear_arith)
                    requires
                        len - WAL_HEADER_SIZE >= (n + 1) * WAL_FRAME_SIZE,
                ;
            }
            n = n + 1;
        }
        offset = offset + WAL_FRAME_SIZE;
    }
    proof {
        assert(n == frame_count(len as int)) by {
            assert((len - WAL_HEADER_SIZE) / (WAL_FRAME_SIZE as int) == n) by (nonlinear_arith)
                requires
                    len - WAL_HEADER_SIZE == n * WAL_FRAME_SIZE + (len - offset),
                    len - offset < WAL_FRAME_SIZE,
                    len - offset >= 0,
            ;
        }
    }
    Ok((committed, end as u64))
}

/// Once recovery meets an error, later frames keep it.
proof fn lemma_recover_err_sticks(wal: Seq<u8>, n: nat, m: nat)
    requires
        n <= m,
        recover_state(wal, n) is Err,
    ensures
        recover_state(wal, m) == recover_state(wal, n),
    decreases m - n,
{
    if n < m {
        lemma_recover_err_sticks(wal, n, (m - 1) as nat);
    }
}

/// Data frames never change what is committed: the committed pairs after
/// frame `m` are those after frame `n` when no frame in between is a commit.
pub proof fn lemma_uncommitted_frames_dropped(wal: Seq<u8>, n: nat, m: nat)
    requires
        n <= m,
        recover_state(wal, m) is Ok,
        forall|j: nat| n <= j < m ==> #[trigger] wal[WAL_HEADER_SIZE + j * WAL_FRAME_SIZE + 8] == 0,
    ensures
        recover_state(wal, n) is Ok,
        recover_state(wal, m)->Ok_0.0 == recover_state(wal, n)->Ok_0.0,
    decreases m - n,
{
    if n < m {
        let k = (m - 1) as nat;
        if recover_state(wal, k) is Err {
            assert(recover_state(wal, m) is Err);
        }
        assert(wal[WAL_HEADER_SIZE + k * WAL_FRAME_SIZE + 8] == 0);
        lemma_uncommitted_frames_dropped(wal, n, k);
    }
}

/// The value paired with `k` in `list`: that of its first pair with `k`.
pub open spec fn lookup_pair(list: Seq<(u64, u64)>, k: u64) -> Option<u64> {
    match find_key(list, k, 0) {
        Some(i) => Some(list[i].1),
        None => None,
    }
}

/// No key occurs twice in `list`.
pub open spec fn keys_unique(list: Seq<(u64, u64)>) -> bool {
    forall|i: int, j: int| 0 <= i < j < list.len() ==> #[trigger] list[i].0 != #[trigger] list[j].0
}

/// The offset of the last data frame for page `p` among frames `lo..n` of
/// the log `wal`.
pub open spec fn last_write(wal: Seq<u8>, p: u64, lo: nat, n: nat) -> Option<u64>
    decreases n,
{
    if n <= lo {
        None
    } else {
        let off = WAL_HEADER_SIZE + (n - 1) * WAL_FRAME_SIZE;
        if wal[off + 8] == 0 && read_u64(wal, off) == p {
            Some(off as u64)
        } else {
            last_write(wal, p, lo, (n - 1) as nat)
        }
    }
}

/// The last write among frames `0..n` is the last among `lo..n`, or when
/// there is none, the last among `0..lo`.
proof fn lemma_last_write_split(wal: Seq<u8>, p: u64, lo: nat, n: nat)
    requires
        lo <= n,
    ensures
        last_write(wal, p, 0, n) == match last_write(wal, p, lo, n) {
            Some(o) => Some(o),
            None => last_write(wal, p, 0, lo),
        },
    decreases n,
{
    if n > lo {
        lemma_last_write_split(wal, p, lo, (n - 1) as nat);
    }
}

/// Setting the pair for `k` makes `k` look up `v`, leaves every other key
/// as it was, and keeps keys unique.
proof fn lemma_upsert_lookup(list: Seq<(u64, u64)>, k: u64, v: u64, p: u64)
    requires
        keys_unique(list),
    ensures
        lookup_pair(upsert_pair(list, k, v), p) == (if p == k { Some(v) } else { lookup_pair(list, p) }),
        keys_unique(upsert_pair(list, k, v)),
{
    let l2 = upsert_pair(list, k, v);
    lemma_find_key(list, k, 0);
    lemma_find_key(list, p, 0);
    lemma_find_key(l2, p, 0);
    match find_key(list, k, 0) {
        Some(i) => {
            assert(l2 == list.update(i, (k, v)));
            assert forall|a: int, b: int| 0 <= a < b < l2.len() implies #[trigger] l2[a].0 != #[trigger] l2[b].0 by {
                assert(list[a].0 != list[b].0);
            }
            if p == k {
                assert(l2[i].0 == k);
                if let Some(j) = find_key(l2, p, 0) {
                    if j < i {
                        assert(list[j].0 == k);
                    } else if j > i {
                        assert(l2[i].0 == k);
                    }
                }
            } else {
                match find_key(list, p, 0) {
                    Some(j) => {
                        assert(l2[j].0 == p);
                        if let Some(j2) = find_key(l2, p, 0) {
                            if j2 < j {
                                assert(list[j2].0 == p);
                            }
                        }
                    },
                    None => {
                        if let Some(j2) = find_key(l2, p, 0) {
                            assert(list[j2].0 == p);
                        }
                    },
                }
            }
        },
        None => {
            assert(l2 == list.push((k, v)));
            assert forall|a: int, b: int| 0 <= a < b < l2.len() implies #[trigger] l2[a].0 != #[trigger] l2[b].0 by {
                if b == list.len() {
                    assert(list[a].0 != k);
                } else {
                    assert(list[a].0 != list[b].0);
                }
            }
            if p == k {
                if let Some(j) = find_key(l2, p, 0) {
                    if j < list.len() {
                        assert(list[j].0 == k);
                    }
                }
                assert(l2[list.len() as int].0 == k);
            } else {
                match find_key(list, p, 0) {
                    Some(j) => {
                        assert(l2[j] == list[j]);
                        if let Some(j2) = find_key(l2, p, 0) {
                            if j2 < j {
                                assert(list[j2].0 == p);
                            }
                        }
                    },
                    None => {
                        if let Some(j2) = find_key(l2, p, 0) {
                            if j2 < list.len() {
                                assert(list[j2].0 == p);
                            }
                        }
                    },
                }
            }
        },
    }
}

/// Putting `items` with unique keys into `list`: a key of `items` looks up
/// its value there, any other key what it looked up in `list`.
proof fn lemma_upsert_all_lookup(list: Seq<(u64, u64)>, items: Seq<(u64, u64)>, p: u64)
    requires
        keys_unique(list),
        keys_unique(items),
    ensures
        lookup_pair(upsert_all(list, items), p) == match lookup_pair(items, p) {
            Some(v) => Some(v),
            None => lookup_pair(list, p),
        },
        keys_unique(upsert_all(list, items)),
    decreases items.len(),
{
    if items.len() > 0 {
        let (k, v) = items[0];
        let rest = items.drop_first();
        lemma_upsert_lookup(list, k, v, p);
        assert forall|a: int, b: int| 0 <= a < b < rest.len() implies #[trigger] rest[a].0 != #[trigger] rest[b].0 by {
            assert(items[a + 1].0 != items[b + 1].0);
        }
        lemma_upsert_all_lookup(upsert_pair(list, k, v), rest, p);
        lemma_find_key(items, p, 0);
        lemma_find_key(rest, p, 0);
        if p == k {
            assert(find_key(items, p, 0) == Some(0int));
            if let Some(j) = find_key(rest, p, 0) {
                assert(items[j + 1].0 == p);
                assert(items[0].0 != items[j + 1].0);
            }
        } else {
            match find_key(items, p, 0) {
                Some(j) => {
                    assert(j > 0);
                    assert(rest[j - 1].0 == p);
                    if let Some(j2) = find_key(rest, p, 0) {
                        if j2 < j - 1 {
                            assert(items[j2 + 1].0 == p);
                        }
                        assert(j2 == j - 1);
                    }
                },
                None => {
                    if let Some(j2) = find_key(rest, p, 0) {
                        assert(items[j2 + 1].0 == p);
                    }
                },
            }
        }
    }
}

/// After the first `n` frames, the committed pairs give each page its last
/// data frame up to the last commit frame, and the pending pairs its last
/// data frame after it; neither names a page twice.
proof fn lemma_recover_state_lookup(wal: Seq<u8>, n: nat, p: u64)
    requires
        recover_state(wal, n) is Ok,
    ensures
        ({
            let (c, pend) = recover_state(wal, n)->Ok_0;
            let cf = committed_frames(wal, n);
            &&& keys_unique(c)
            &&& keys_unique(pend)
            &&& lookup_pair(c, p) == last_write(wal, p, 0, cf)
            &&& lookup_pair(pend, p) == last_write(wal, p, cf, n)
        }),
    decreases n,
{
    if n > 0 {
        let k = (n - 1) as nat;
        if recover_state(wal, k) is Err {
            assert(recover_state(wal, n) is Err);
        }
        lemma_recover_state_lookup(wal, k, p);
        lemma_committed_frames(wal, k);
        let (c, pend) = recover_state(wal, k)->Ok_0;
        let off = WAL_HEADER_SIZE + k * WAL_FRAME_SIZE;
        let flag = wal[off + 8];
        if flag == 0 {
            lemma_upsert_lookup(pend, read_u64(wal, off), off as u64, p);
        } else {
            lemma_upsert_all_lookup(c, pend, p);
            lemma_last_write_split(wal, p, committed_frames(wal, k), k);
            assert(lookup_pair(Seq::<(u64, u64)>::empty(), p) == None::<u64>);
        }
    }
}

/// Recovery gives each page written by a committed data frame once, paired
/// with the offset of its last data frame among the frames up to the last
/// commit frame; a page with no such frame is not there.
pub proof fn lemma_recover_last_committed_write(wal: Seq<u8>, p: u64)
    requires
        spec_recover(wal) is Ok,
    ensures
        keys_unique(spec_recover(wal)->Ok_0),
        lookup_pair(spec_recover(wal)->Ok_0, p)
            == last_write(wal, p, 0, committed_frames(wal, frame_count(wal.len() as int) as nat)),
{
    lemma_recover_state_lookup(wal, frame_count(wal.len() as int) as nat, p);
}

/// How many of the first `n` frames of `wal` come up to and include the
/// last commit frame among them; 0 when there is none.
pub open spec fn committed_frames(wal: Seq<u8>, n: nat) -> nat
    decreases n,
{
    if n == 0 {
        0
    } else if wal[WAL_HEADER_SIZE + (n - 1) * WAL_FRAME_SIZE + 8] == 1 {
        n
    } else {
        committed_frames(wal, (n - 1) as nat)
    }
}

/// Where the committed part of the log `wal` ends: just past its last commit
/// frame, or just past the header when it has none.
pub open spec fn spec_recover_end(wal: Seq<u8>) -> int {
    WAL_HEADER_SIZE + committed_frames(wal, frame_count(wal.len() as int) as nat) * WAL_FRAME_SIZE
}

/// The committed frames lie within the first `n`, and no frame after them
/// is a commit frame.
proof fn lemma_committed_frames(wal: Seq<u8>, n: nat)
    ensures
        committed_frames(wal, n) <= n,
        forall|j: nat| committed_frames(wal, n) <= j < n ==> #[trigger] wal[WAL_HEADER_SIZE + j * WAL_FRAME_SIZE + 8] != 1,
        committed_frames(wal, n) > 0 ==> wal[WAL_HEADER_SIZE + (committed_frames(wal, n) - 1) * WAL_FRAME_SIZE + 8] == 1,
    decreases n,
{
    if n > 0 && wal[WAL_HEADER_SIZE + (n - 1) * WAL_FRAME_SIZE + 8] != 1 {
        lemma_committed_frames(wal, (n - 1) as nat);
    }
}

/// Frames that are not commit frames never change what is committed.
proof fn lemma_no_commit_keeps(wal: Seq<u8>, n: nat, m: nat)
    requires
        n <= m,
        recover_state(wal, m) is Ok,
        forall|j: nat| n <= j < m ==> #[trigger] wal[WAL_HEADER_SIZE + j * WAL_FRAME_SIZE + 8] != 1,
    ensures
        recover_state(wal, n) is Ok,
        recover_state(wal, m)->Ok_0.0 == recover_state(wal, n)->Ok_0.0,
    decreases m - n,
{
    if n < m {
        let k = (m - 1) as nat;
        if recover_state(wal, k) is Err {
            assert(recover_state(wal, m) is Err);
        }
        assert(wal[WAL_HEADER_SIZE + k * WAL_FRAME_SIZE + 8] != 1);
        lemma_no_commit_keeps(wal, n, k);
    }
}

/// A prefix of the log recovers its frames as the whole log does.
proof fn lemma_recover_prefix(wal: Seq<u8>, e: int, k: nat)
    requires
        WAL_HEADER_SIZE + k * WAL_FRAME_SIZE <= e <= wal.len(),
    ensures
        recover_state(wal.subrange(0, e), k) == recover_state(wal, k),
    decreases k,
{
    if k > 0 {
        let w2 = wal.subrange(0, e);
        let off = WAL_HEADER_SIZE + (k - 1) * WAL_FRAME_SIZE;
        lemma_recover_prefix(wal, e, (k - 1) as nat);
        assert(w2.subrange(off, off + 8) =~= wal.subrange(off, off + 8));
        assert(w2[off + 8] == wal[off + 8]);
    }
}

/// Cutting the log at the end of its committed part keeps what it commits
/// and leaves nothing pending, so frames appended after the cut commit only
/// with the frames written after them: a session that stopped before its
/// commit leaves no write behind.
pub proof fn lemma_cut_at_recover_end(wal: Seq<u8>)
    requires
        WAL_HEADER_SIZE <= wal.len(),
        spec_recover(wal) is Ok,
    ensures
        ({
            let e = spec_recover_end(wal);
            let w2 = wal.subrange(0, e);
            &&& WAL_HEADER_SIZE <= e <= wal.len()
            &&& (e - WAL_HEADER_SIZE) % (WAL_FRAME_SIZE as int) == 0
            &&& recover_state(w2, frame_count(e) as nat) == Ok::<(Seq<(u64, u64)>, Seq<(u64, u64)>), NexoraStorageError>(
                (spec_recover(wal)->Ok_0, Seq::empty()),
            )
            &&& spec_recover(w2) == spec_recover(wal)
        }),
{
    let nf = frame_count(wal.len() as int) as nat;
    let c = committed_frames(wal, nf);
    let e = spec_recover_end(wal);
    lemma_committed_frames(wal, nf);
    assert(nf * WAL_FRAME_SIZE <= wal.len() - WAL_HEADER_SIZE) by (nonlinear_arith)
        requires
            nf == (wal.len() - WAL_HEADER_SIZE) / (WAL_FRAME_SIZE as int),
            wal.len() >= WAL_HEADER_SIZE,
    ;
    assert(c * WAL_FRAME_SIZE <= nf * WAL_FRAME_SIZE) by (nonlinear_arith)
        requires
            c <= nf,
    ;
    assert(frame_count(e) == c) by {
        assert((c * WAL_FRAME_SIZE) / (WAL_FRAME_SIZE as int) == c) by (nonlinear_arith);
    }
    assert((e - WAL_HEADER_SIZE) % (WAL_FRAME_SIZE as int) == 0) by {
        assert((c * WAL_FRAME_SIZE) % (WAL_FRAME_SIZE as int) == 0) by (nonlinear_arith);
    }
    lemma_no_commit_keeps(wal, c, nf);
    lemma_recover_prefix(wal, e, c);
    let w2 = wal.subrange(0, e);
    assert(w2.len() == e);
}

/// The index of a log: for each page with a frame in the log, the offset of
/// its latest frame.
pub struct WalIndex {
    entries: Vec<(u64, u64)>,
}

impl View for WalIndex {
    type V = Seq<(u64, u64)>;

    /// The (page id, frame offset) pairs, in the order they were added.
    closed spec fn view(&self) -> Seq<(u64, u64)> {
        self.entries@
    }
}

impl WalIndex {
    /// Each page at most once, and no more pages than the index holds.
    pub open spec fn inv(&self) -> bool {
        &&& keys_unique(self@)
        &&& self@.len() <= WAL_INDEX_CAPACITY
    }

    pub fn new() -> (r: Self)
        ensures
            r@ == Seq::<(u64, u64)>::empty(),
            r.inv(),
    {
        WalIndex { entries: Vec::new() }
    }

    /// An index holding `pairs`, refused when they are more than it can hold.
    pub fn from_pairs(pairs: Vec<(u64, u64)>) -> (r: Result<Self, NexoraStorageError>)
        ensures
            pairs@.len() > WAL_INDEX_CAPACITY ==> (r matches Err(e) && e == NexoraStorageError::WalIndexFull),
            pairs@.len() <= WAL_INDEX_CAPACITY ==> (r matches Ok(ix) && ix@ == pairs@),
            keys_unique(pairs@) ==> (r matches Ok(ix) ==> ix.inv()),
    {
        if pairs.len() > WAL_INDEX_CAPACITY {
            return Err(NexoraStorageError::WalIndexFull);
        }
        Ok(WalIndex { entries: pairs })
    }

    pub fn len(&self) -> (r: usize)
        ensures
            r == self@.len(),
    {
        self.entries.len()
    }

    /// The offset of the latest frame for `page_id`, if the log has one.
    pub fn lookup(&self, page_id: u64) -> (r: Option<u64>)
        ensures
            r == match find_key(self@, page_id, 0) {
                Some(i) => Some(self@[i].1),
                None => None::<u64>,
            },
    {
        let mut i: usize = 0;
        while i < self.entries.len()
            invariant
                i <= self@.len(),
                forall|m: int| 0 <= m < i ==> #[trigger] self@[m].0 != page_id,
            decreases self@.len() - i,
        {
            if self.entries[i].0 == page_id {
                proof {
                    lemma_find_key_from(self@, page_id, i as int);
                }
                return Some(self.entries[i].1);
            }
            i = i + 1;
        }
        proof {
            lemma_find_key_from(self@, page_id, i as int);
        }
        None
    }

    /// Records that the latest frame for `page_id` is at `offset`; refused
    /// when the page is new to the index and the index is full.
    pub fn upsert(&mut self, page_id: u64, offset: u64) -> (r: Result<(), NexoraStorageError>)
        ensures
            old(self).inv() ==> final(self).inv(),
            match find_key(old(self)@, page_id, 0) {
                Some(i) => r is Ok && final(self)@ == old(self)@.update(i, (page_id, offset)),
                None => if old(self)@.len() >= WAL_INDEX_CAPACITY {
                    r == Err::<(), NexoraStorageError>(NexoraStorageError::WalIndexFull) && final(self)@ == old(self)@
                } else {
                    r is Ok && final(self)@ == old(self)@.push((page_id, offset))
                },
            },
    {
        let mut i: usize = 0;
        while i < self.entries.len()
            invariant
                i <= self@.len(),
                self@ == old(self)@,
                forall|m: int| 0 <= m < i ==> #[trigger] self@[m].0 != page_id,
            decreases self@.len() - i,
        {
            if self.entries[i].0 == page_id {
                proof {
                    lemma_find_key_from(self@, page_id, i as int);
                }
                self.entries[i] = (page_id, offset);
                return Ok(());
            }
            i = i + 1;
        }
        proof {
            lemma_find_key_from(self@, page_id, i as int);
        }
        if self.entries.len() >= WAL_INDEX_CAPACITY {
            return Err(NexoraStorageError::WalIndexFull);
        }
        self.entries.push((page_id, offset));
        Ok(())
    }

    /// Forgets every entry, as after a checkpoint.
    pub fn clear(&mut self)
        ensures
            final(self)@ == Seq::<(u64, u64)>::empty(),
            final(self).inv(),
    {
        self.entries = Vec::new();
    }
}

/// What the index gives for `k` after the pair (`k`, `v`) is put in.
pub proof fn lemma_upsert_then_lookup(list: Seq<(u64, u64)>, k: u64, v: u64)
    ensures
        ({
            let l2 = upsert_pair(list, k, v);
            &&& find_key(l2, k, 0) is Some
            &&& l2[find_key(l2, k, 0)->Some_0] == (k, v)
        }),
{
    let l2 = upsert_pair(list, k, v);
    lemma_find_key(list, k, 0);
    match find_key(list, k, 0) {
        Some(i) => {
            assert forall|m: int| 0 <= m < i implies #[trigger] l2[m].0 != k by {
                assert(l2[m] == list[m]);
            }
            lemma_find_key_from(l2, k, i);
        },
        None => {
            assert forall|m: int| 0 <= m < list.len() implies #[trigger] l2[m].0 != k by {
                assert(l2[m] == list[m]);
            }
            lemma_find_key_from(l2, k, list.len() as int);
        },
    }
}

/// What a checkpoint does to the pages: the page image of each indexed frame
/// of `wal` is written, unstamped, over its page, in index order.
pub open spec fn spec_checkpoint(pages: Seq<Seq<u8>>, wal: Seq<u8>, entries: Seq<(u64, u64)>) -> Result<Seq<Seq<u8>>, NexoraStorageError>
    decreases entries.len(),
{
    if entries.len() == 0 {
        Ok(pages)
    } else {
        let (pid, off) = entries[0];
        if off + WAL_FRAME_SIZE > wal.len() {
            Err(NexoraStorageError::CorruptWal)
        } else {
            spec_checkpoint(
                pages_after_write(pages, pid as int, wal.subrange(off + 16, off + WAL_FRAME_SIZE)),
                wal,
                entries.drop_first(),
            )
        }
    }
}

/// After a checkpoint with an index that names each page once, each named
/// page holds the page image of its frame, and every page of the store that
/// changed is one the index names.
pub proof fn lemma_checkpoint_then_read(pages: Seq<Seq<u8>>, wal: Seq<u8>, entries: Seq<(u64, u64)>)
    requires
        forall|i: int, j: int| 0 <= i < j < entries.len() ==> entries[i].0 != entries[j].0,
        spec_checkpoint(pages, wal, entries) is Ok,
    ensures
        ({
            let p2 = spec_checkpoint(pages, wal, entries)->Ok_0;
            &&& p2.len() >= pages.len()
            &&& forall|i: int| #![trigger entries[i]] 0 <= i < entries.len() ==> entries[i].0 < p2.len()
                && p2[entries[i].0 as int] == wal.subrange(entries[i].1 + 16, entries[i].1 + WAL_FRAME_SIZE)
            &&& forall|q: int| 0 <= q < pages.len() && p2[q] != pages[q] ==> exists|i: int| 0 <= i < entries.len() && #[trigger] entries[i].0 == q
        }),
    decreases entries.len(),
{
    if entries.len() > 0 {
        let (pid, off) = entries[0];
        let img = wal.subrange(off + 16, off + WAL_FRAME_SIZE);
        let p1 = pages_after_write(pages, pid as int, img);
        let rest = entries.drop_first();
        assert forall|i: int, j: int| 0 <= i < j < rest.len() implies rest[i].0 != rest[j].0 by {
            assert(rest[i] == entries[i + 1] && rest[j] == entries[j + 1]);
        }
        assert(spec_checkpoint(pages, wal, entries) == spec_checkpoint(p1, wal, rest));
        lemma_checkpoint_then_read(p1, wal, rest);
        let p2 = spec_checkpoint(p1, wal, rest)->Ok_0;
        assert(p1[pid as int] == img);
        assert(p1.len() > pid);
        assert(p2.len() >= p1.len());
        if p2[pid as int] != p1[pid as int] {
            let j = choose|j: int| 0 <= j < rest.len() && #[trigger] rest[j].0 == pid as int;
            assert(rest[j] == entries[j + 1]);
            assert(false);
        }
        assert forall|i: int| #![trigger entries[i]] 0 <= i < entries.len() implies entries[i].0 < p2.len()
            && p2[entries[i].0 as int] == wal.subrange(entries[i].1 + 16, entries[i].1 + WAL_FRAME_SIZE) by {
            if i > 0 {
                assert(rest[i - 1] == entries[i]);
            } else {
                assert(entries[0].0 == pid);
            }
        }
        assert forall|q: int| 0 <= q < pages.len() && p2[q] != pages[q]
            implies exists|i: int| 0 <= i < entries.len() && #[trigger] entries[i].0 == q by {
            if p1[q] != pages[q] {
                assert(entries[0].0 == q);
            } else {
                let j = choose|j: int| 0 <= j < rest.len() && #[trigger] rest[j].0 == q;
                assert(rest[j] == entries[j + 1]);
                assert(entries[j + 1].0 == q);
            }
        }
    }
}

/// Copies the page image of each frame the index names from the log bytes
/// `wal` into `store`. A frame that lies past the end of the log gives
/// `CorruptWal`.
pub fn checkpoint_into(store: &mut PageStore, wal: &[u8], index: &WalIndex) -> (r: Result<(), NexoraStorageError>)
    requires
        old(store).inv(),
    ensures
        final(store).inv(),
        match spec_checkpoint(old(store)@, wal@, index@) {
            Ok(p) => r is Ok && final(store)@ == p,
            Err(e) => r == Err::<(), NexoraStorageError>(e),
        },
{
    let mut i: usize = 0;
    proof {
        assert(index@.subrange(0, index@.len() as int) =~= index@);
    }
    while i < index.entries.len()
        invariant
            i <= index@.len(),
            store.inv(),
            spec_checkpoint(old(store)@, wal@, index@)
                == spec_checkpoint(store@, wal@, index@.subrange(i as int, index@.len() as int)),
        decreases index@.len() - i,
    {
        let (page_id, offset) = index.entries[i];
        proof {
            assert(index@.subrange(i as int, index@.len() as int).drop_first()
                =~= index@.subrange(i + 1, index@.len() as int));
        }
        if offset > wal.len() as u64 || (wal.len() as u64) - offset < WAL_FRAME_SIZE as u64 {
            return Err(NexoraStorageError::CorruptWal);
        }
        let frame = WALFrame::from_bytes(wal, offset as usize);
        let _ = store.write_page(PageId(page_id), frame.page.as_slice(), false);
        i = i + 1;
    }
    proof {
        assert(index@.subrange(i as int, index@.len() as int) =~= Seq::<(u64, u64)>::empty());
    }
    Ok(())
}

/// What opening a log whose bytes are `wal` finds: an index of its committed
/// frames, and whether the log is too short to hold a header and has to be
/// started afresh.
pub open spec fn spec_open_wal(wal: Seq<u8>) -> Result<(Seq<(u64, u64)>, bool, int), NexoraStorageError> {
    if wal.len() < WAL_HEADER_SIZE {
        Ok((Seq::empty(), true, WAL_HEADER_SIZE as int))
    } else {
        match spec_validate(view_wal_header(wal)) {
            Err(e) => Err(e),
            Ok(_) => match spec_recover(wal) {
                Err(e) => Err(e),
                Ok(c) => if c.len() > WAL_INDEX_CAPACITY {
                    Err(NexoraStorageError::WalIndexFull)
                } else {
                    Ok((c, false, spec_recover_end(wal)))
                },
            },
        }
    }
}

/// Opens a log from its bytes: checks the header, recovers the committed
/// frames and indexes them. The flag says the log was too short to hold a
/// header, so that its file has to be started again with a new header. The
/// offset is where the committed part of the log ends: the file is cut there,
/// so that frames of a session that stopped before its commit are dropped
/// (see `lemma_cut_at_recover_end`).
pub fn open_wal(wal: &[u8]) -> (r: Result<(WalIndex, bool, u64), NexoraStorageError>)
    ensures
        match spec_open_wal(wal@) {
            Ok((c, reset, end)) => r matches Ok((ix, rs, e)) && ix@ == c && ix.inv() && rs == reset && e == end,
            Err(e) => r matches Err(x) && x == e,
        },
{
    if wal.len() < WAL_HEADER_SIZE {
        return Ok((WalIndex::new(), true, WAL_HEADER_SIZE as u64));
    }
    let header = WALHeader::from_bytes(wal);
    header.validate()?;
    let (pairs, end) = recover(wal)?;
    proof {
        lemma_recover_last_committed_write(wal@, 0);
    }
    let index = WalIndex::from_pairs(pairs)?;
    Ok((index, false, end))
}

} // verus!
