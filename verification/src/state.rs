//! Data structures and state of the zoned device: streams, extents, files and zones.
use vstd::prelude::*;

verus! {

/// Block: 4 KiB blocks, the unit of alignment of every write to a zone.
pub const BLOCK_SIZE: u32 = 4096;

/// Minimum write size the device accepts.
pub const CHUNK_SIZE: u32 = 65536;

/// Minimum buffer size.
pub const MIN_BUFFER_SIZE: u32 = CHUNK_SIZE;

/// Preferred buffer size: a write buffer is handed to the writer once it holds this much.
pub const PREFERRED_BUFFER_SIZE: usize = 16777216;

/// Maximum number of zones that can be open simultaneously.
pub const MAX_OPEN_ZONES: u32 = 6;

/// The largest size that `align_to_page` can round up without leaving the `u32` range.
pub const MAX_ALIGNABLE_SIZE: u32 = 0xFFFF_F000;

/// `size` rounded up to the next multiple of `BLOCK_SIZE`.
pub open spec fn aligned_size(size: int) -> int {
    if size % (BLOCK_SIZE as int) == 0 {
        size
    } else {
        size - size % (BLOCK_SIZE as int) + BLOCK_SIZE as int
    }
}

/// Aligns size to page boundary.
pub fn align_to_page(size: u32) -> (r: u32)
    requires
        size <= MAX_ALIGNABLE_SIZE,
    ensures
        r == aligned_size(size as int),
        r % BLOCK_SIZE == 0,
        size <= r < size + BLOCK_SIZE,
{
    let rem = size % BLOCK_SIZE;
    if rem == 0 {
        size
    } else {
        size - rem + BLOCK_SIZE
    }
}

/// Aligning an aligned size changes nothing.
pub proof fn lemma_align_idempotent(size: int)
    requires
        0 <= size,
    ensures
        aligned_size(aligned_size(size)) == aligned_size(size),
        aligned_size(size) % (BLOCK_SIZE as int) == 0,
        size <= aligned_size(size) < size + BLOCK_SIZE,
{
}

/// True when `n` is zero (a field that need not be written out).
pub fn is_zero_u32(n: &u32) -> (r: bool)
    ensures
        r == (*n == 0),
{
    *n == 0
}

/// True when no flag in `v` is set (a list that need not be written out).
pub fn is_all_false(v: &[bool]) -> (r: bool)
    ensures
        r == (forall|i: int| 0 <= i < v@.len() ==> !v@[i]),
{
    let mut i: usize = 0;
    while i < v.len()
        invariant
            0 <= i <= v@.len(),
            forall|j: int| 0 <= j < i ==> !v@[j],
        decreases v@.len() - i,
    {
        if v[i] {
            return false;
        }
        i = i + 1;
    }
    true
}

/// File stream types for hint interface.
#[derive(Debug, PartialEq, Eq, Hash, Clone, Copy, Structural)]
pub enum Stream {
    SSTable,
    LOG,
    LSM,
    Undefined,
}

impl Default for Stream {
    fn default() -> (s: Self)
        ensures
            s == Stream::Undefined,
    {
        Stream::Undefined
    }
}

impl Stream {
    /// The name under which a stream is shown.
    pub fn display_name(&self) -> (s: String)
        ensures
            *self == Stream::LOG ==> s@ == "Log"@,
            *self == Stream::SSTable ==> s@ == "SSTable"@,
            *self == Stream::LSM ==> s@ == "LSM"@,
            *self == Stream::Undefined ==> s@ == "Undefined"@,
    {
        match *self {
            Stream::LOG => String::from_str("Log"),
            Stream::SSTable => String::from_str("SSTable"),
            Stream::LSM => String::from_str("LSM"),
            Stream::Undefined => String::from_str("Undefined"),
        }
    }
}

/// Metadata for a file extent on a zone.
#[derive(Debug, Clone, Copy)]
pub struct Extents {
    pub zone: u32,
    pub offset: u32,
    pub actual_size: u32,
    pub zone_extent_num: u32,
}

impl Extents {
    pub fn new(zone: u32, offset: u32, actual_size: u32, zone_extent_num: u32) -> (e: Self)
        ensures
            e == (Extents { zone, offset, actual_size, zone_extent_num }),
    {
        Extents { zone, offset, actual_size, zone_extent_num }
    }
}

/// What a file's metadata says: its size and where its extents lie, in file order.
pub struct FileView {
    pub file_size: u32,
    pub extents: Seq<Extents>,
}

/// Metadata for a mapped file on a zone.
#[derive(Debug, Clone)]
pub struct Files {
    pub file_size: u32,
    pub extents: Vec<Extents>,
}

impl View for Files {
    type V = FileView;

    open spec fn view(&self) -> FileView {
        FileView { file_size: self.file_size, extents: self.extents@ }
    }
}

impl Files {
    pub fn new(file_size: u32) -> (f: Self)
        ensures
            f@ == (FileView { file_size, extents: Seq::empty() }),
    {
        Files { file_size, extents: Vec::new() }
    }

    /// A copy of this file's metadata.
    pub fn duplicate(&self) -> (f: Self)
        ensures
            f@ == self@,
    {
        let mut extents: Vec<Extents> = Vec::new();
        let mut i: usize = 0;
        while i < self.extents.len()
            invariant
                0 <= i <= self.extents@.len(),
                extents@ == self.extents@.subrange(0, i as int),
            decreases self.extents@.len() - i,
        {
            extents.push(self.extents[i]);
            i = i + 1;
        }
        proof {
            assert(self.extents@.subrange(0, self.extents@.len() as int) =~= self.extents@);
        }
        Files { file_size: self.file_size, extents }
    }
}

#[derive(Debug)]
pub struct LockedBuffer {
    pub buffer: Vec<u8>,
    pub lock: bool,
}

impl LockedBuffer {
    pub fn new(buffer: Vec<u8>, lock: bool) -> (b: Self)
        ensures
            b.buffer@ == buffer@,
            b.lock == lock,
    {
        LockedBuffer { buffer, lock }
    }
}

/// Write request for persisting buffered data to a zone.
#[derive(Debug, Clone, Copy, Default)]
pub struct WriteRequest {
    pub id: u32,
    pub file: u32,
    pub buffer: u32,
    pub stream: Stream,
    pub fd: i32,
}

impl WriteRequest {
    pub fn new(id: u32, file: u32, buffer: u32, stream: Stream, fd: i32) -> (r: Self)
        ensures
            r == (WriteRequest { id, file, buffer, stream, fd }),
    {
        WriteRequest { id, file, buffer, stream, fd }
    }
}

#[derive(Debug, Clone, Copy, Default, PartialEq, Eq, Structural)]
pub struct WriteResponse {
    pub id: u32,
    pub fd: i32,
    pub buffer: u32,
}

impl WriteResponse {
    pub fn new(id: u32, fd: i32, buffer: u32) -> (r: Self)
        ensures
            r == (WriteResponse { id, fd, buffer }),
    {
        WriteResponse { id, fd, buffer }
    }
}

/// A read of `count` bytes at `offset` of the file open as `fd`, into the memory at `buf_ptr`.
#[derive(Debug, Clone, Copy, Default)]
pub struct ReadRequest {
    pub id: u32,
    pub fd: i32,
    pub count: usize,
    pub offset: i64,
    pub buf_ptr: usize,
}

#[derive(Debug, Clone, Copy)]
pub struct ReadResponse {
    pub bytes_read: usize,
    pub success: bool,
}

impl ReadResponse {
    /// The answer to a read that delivered `bytes_read` bytes: it succeeded when any arrived.
    pub fn for_bytes_read(bytes_read: usize) -> (r: Self)
        ensures
            r.bytes_read == bytes_read,
            r.success == (bytes_read > 0),
    {
        ReadResponse { bytes_read, success: bytes_read > 0 }
    }
}

/// What a zone's metadata says.
pub struct ZoneView {
    pub extent_count: u32,
    pub deleted_extents: Seq<bool>,
    pub is_full: bool,
    pub deleted_bytes: u32,
}

/// Zone metadata and state tracking.
#[derive(Debug, PartialEq, Eq, Hash, Clone)]
pub struct Zone {
    /// Total number of extents allocated in this zone.
    pub extent_count: u32,
    /// Tracks deleted extents (true = deleted, false = active).
    pub deleted_extents: Vec<bool>,
    /// Indicates if the zone has reached capacity.
    pub is_full: bool,
    /// Total deleted bytes for garbage collection decisions.
    pub deleted_bytes: u32,
}

impl View for Zone {
    type V = ZoneView;

    open spec fn view(&self) -> ZoneView {
        ZoneView {
            extent_count: self.extent_count,
            deleted_extents: self.deleted_extents@,
            is_full: self.is_full,
            deleted_bytes: self.deleted_bytes,
        }
    }
}

/// The zone with no extents.
pub open spec fn empty_zone() -> ZoneView {
    ZoneView { extent_count: 0, deleted_extents: Seq::empty(), is_full: false, deleted_bytes: 0 }
}

/// `z` after a new extent is recorded in it: the count grows by one and the deletion
/// flags are extended with `false` to cover every extent.
pub open spec fn zone_add_extent(z: ZoneView) -> ZoneView {
    let count = z.extent_count.wrapping_add(1);
    ZoneView {
        extent_count: count,
        deleted_extents: if z.deleted_extents.len() < count {
            z.deleted_extents + Seq::new((count - z.deleted_extents.len()) as nat, |i: int| false)
        } else {
            z.deleted_extents
        },
        ..z
    }
}

/// Whether extent `num` of `z` is known and still live.
pub open spec fn zone_extent_live(z: ZoneView, num: u32) -> bool {
    num < z.deleted_extents.len() && !z.deleted_extents[num as int]
}

/// `z` after extent `num`, of `size` bytes, is deleted (unchanged when it was not live).
pub open spec fn zone_delete_extent(z: ZoneView, num: u32, size: u32) -> ZoneView {
    if zone_extent_live(z, num) {
        ZoneView {
            deleted_extents: z.deleted_extents.update(num as int, true),
            deleted_bytes: z.deleted_bytes.wrapping_add(size),
            ..z
        }
    } else {
        z
    }
}

/// A zone may be reclaimed once it is full and every extent in it is deleted.
pub open spec fn zone_reclaimable(z: ZoneView) -> bool {
    z.is_full && forall|i: int| 0 <= i < z.deleted_extents.len() ==> z.deleted_extents[i]
}

/// The number of deleted extents in a list of deletion flags.
pub open spec fn count_deleted(s: Seq<bool>) -> nat
    decreases s.len(),
{
    if s.len() == 0 {
        0
    } else {
        count_deleted(s.drop_last()) + if s.last() {
            1nat
        } else {
            0nat
        }
    }
}

impl Zone {
    pub fn new() -> (z: Self)
        ensures
            z@ == empty_zone(),
    {
        Zone { extent_count: 0, deleted_extents: Vec::new(), is_full: false, deleted_bytes: 0 }
    }

    /// A copy of this zone's metadata.
    pub fn duplicate(&self) -> (z: Self)
        ensures
            z@ == self@,
    {
        let mut flags: Vec<bool> = Vec::new();
        let mut i: usize = 0;
        while i < self.deleted_extents.len()
            invariant
                0 <= i <= self.deleted_extents@.len(),
                flags@ == self.deleted_extents@.subrange(0, i as int),
            decreases self.deleted_extents@.len() - i,
        {
            flags.push(self.deleted_extents[i]);
            i = i + 1;
        }
        proof {
            assert(self.deleted_extents@.subrange(0, self.deleted_extents@.len() as int)
                =~= self.deleted_extents@);
        }
        Zone {
            extent_count: self.extent_count,
            deleted_extents: flags,
            is_full: self.is_full,
            deleted_bytes: self.deleted_bytes,
        }
    }

    /// Records a new extent allocation and returns its number.
    pub fn add_extent(&mut self) -> (extent_num: u32)
        ensures
            extent_num == old(self).extent_count,
            final(self)@ == zone_add_extent(old(self)@),
    {
        let extent_num = self.extent_count;
        self.extent_count = self.extent_count.wrapping_add(1);
        let count = self.extent_count as usize;
        if self.deleted_extents.len() < count {
            let ghost before = self.deleted_extents@;
            while self.deleted_extents.len() < count
                invariant
                    before.len() < count,
                    count == self.extent_count,
                    self.extent_count == old(self).extent_count.wrapping_add(1),
                    self.is_full == old(self).is_full,
                    self.deleted_bytes == old(self).deleted_bytes,
                    before == old(self).deleted_extents@,
                    before.len() <= self.deleted_extents@.len() <= count,
                    self.deleted_extents@.subrange(0, before.len() as int) == before,
                    forall|i: int|
                        before.len() <= i < self.deleted_extents@.len()
                            ==> !self.deleted_extents@[i],
                decreases count - self.deleted_extents@.len(),
            {
                self.deleted_extents.push(false);
            }
            proof {
                assert(self.deleted_extents@ =~= before + Seq::new(
                    (count - before.len()) as nat,
                    |i: int| false,
                ));
            }
        }
        proof {
            assert(self.extent_count == old(self).extent_count.wrapping_add(1));
            assert(self@.deleted_extents == zone_add_extent(old(self)@).deleted_extents);
            assert(self@ =~= zone_add_extent(old(self)@));
        }
        extent_num
    }

    /// Marks an extent as deleted and updates deleted bytes.
    pub fn mark_extent_deleted(&mut self, extent_num: u32, extent_size: u32) -> (deleted: bool)
        ensures
            deleted == zone_extent_live(old(self)@, extent_num),
            final(self)@ == zone_delete_extent(old(self)@, extent_num, extent_size),
    {
        if (extent_num as usize) < self.deleted_extents.len()
            && !self.deleted_extents[extent_num as usize] {
            self.deleted_extents.set(extent_num as usize, true);
            self.deleted_bytes = self.deleted_bytes.wrapping_add(extent_size);
            proof {
                assert(self@ =~= zone_delete_extent(old(self)@, extent_num, extent_size));
            }
            return true;
        }
        false
    }

    /// Returns true if zone is full and all extents are deleted.
    pub fn should_gc(&self) -> (r: bool)
        ensures
            r == zone_reclaimable(self@),
    {
        if !self.is_full {
            return false;
        }
        let all = is_all_deleted(&self.deleted_extents);
        proof {
            assert(self@.deleted_extents == self.deleted_extents@);
            assert(all == (forall|i: int|
                0 <= i < self.deleted_extents@.len() ==> self.deleted_extents@[i]));
        }
        all
    }

    /// The number of extents of this zone that are deleted.
    pub fn deleted_extent_count(&self) -> (n: usize)
        ensures
            n == count_deleted(self.deleted_extents@),
    {
        let mut n: usize = 0;
        let mut i: usize = 0;
        while i < self.deleted_extents.len()
            invariant
                0 <= i <= self.deleted_extents@.len(),
                n == count_deleted(self.deleted_extents@.subrange(0, i as int)),
                n <= i,
            decreases self.deleted_extents@.len() - i,
        {
            proof {
                let s = self.deleted_extents@.subrange(0, i as int + 1);
                assert(s.drop_last() =~= self.deleted_extents@.subrange(0, i as int));
            }
            if self.deleted_extents[i] {
                n = n + 1;
            }
            i = i + 1;
        }
        proof {
            assert(self.deleted_extents@.subrange(0, i as int) =~= self.deleted_extents@);
        }
        n
    }

    /// Marks the zone as full.
    pub fn mark_full(&mut self)
        ensures
            final(self)@ == (ZoneView { is_full: true, ..old(self)@ }),
    {
        self.is_full = true;
    }
}

impl Default for Zone {
    fn default() -> (z: Self)
        ensures
            z@ == empty_zone(),
    {
        Zone::new()
    }
}

fn is_all_deleted(v: &Vec<bool>) -> (r: bool)
    ensures
        r == (forall|i: int| 0 <= i < v@.len() ==> v@[i]),
{
    let mut i: usize = 0;
    while i < v.len()
        invariant
            0 <= i <= v@.len(),
            forall|j: int| 0 <= j < i ==> v@[j],
        decreases v@.len() - i,
    {
        if !v[i] {
            return false;
        }
        i = i + 1;
    }
    true
}

/// In a zone whose deletion flags do not run ahead of its extent count, a freshly
/// recorded extent is live, and deleting it once succeeds while deleting it again
/// changes nothing.
pub proof fn lemma_new_extent_deletes_once(z: ZoneView, size: u32)
    ensures
        ({
            let z1 = zone_add_extent(z);
            let num = z.extent_count;
            z.extent_count < u32::MAX && z.deleted_extents.len() <= z.extent_count ==> {
                &&& zone_extent_live(z1, num)
                &&& !zone_extent_live(zone_delete_extent(z1, num, size), num)
                &&& zone_delete_extent(zone_delete_extent(z1, num, size), num, size)
                    == zone_delete_extent(z1, num, size)
            }
        }),
{
    let z1 = zone_add_extent(z);
    let num = z.extent_count;
    if z.extent_count < u32::MAX && z.deleted_extents.len() <= z.extent_count {
        assert(z1.extent_count == z.extent_count + 1);
        if z.deleted_extents.len() < z1.extent_count {
            let fresh = Seq::new((z1.extent_count - z.deleted_extents.len()) as nat, |i: int| false);
            assert(z1.deleted_extents == z.deleted_extents + fresh);
            assert(z1.deleted_extents[num as int] == fresh[num - z.deleted_extents.len()]);
            assert(z1.deleted_extents[num as int] == false);
        } else {
            assert(z1.deleted_extents == z.deleted_extents);
        }
        assert(zone_extent_live(z1, num));
        let z2 = zone_delete_extent(z1, num, size);
        assert(z2.deleted_extents[num as int]);
        assert(!zone_extent_live(z2, num));
        assert(zone_delete_extent(z2, num, size) == z2);
    }
}

/// The layout of the zoned device: how many zones it has, their size and their capacity.
#[derive(Debug, Clone, Copy)]
pub struct ZoneConfig {
    pub zone_num: u32,
    pub zone_size: u32,
    pub zone_capacity: u32,
}

/// The message that explains why zone detection failed, as the shim reports it.
pub open spec fn detection_failure_message(e: Seq<char>) -> Seq<char> {
    "Zone configuration detection failed: "@ + e + ". Ensure ZoneFS is mounted at /mnt/zonefs/seq/"@
}

/// Derives the zone configuration from a probe of the ZoneFS mount: the number of zone
/// files found, and the size of the first zone file in 512-byte sectors. Capacity equals
/// size for sequential zones.
pub fn zone_config_from_probe(zone_files: usize, zone_sectors: u64) -> (r: Result<
    (u32, u32, u32),
    String,
>)
    requires
        zone_sectors <= u64::MAX / 512,
    ensures
        zone_files == 0 ==> (r matches Err(e) && e@ == "No zone files found in /mnt/zonefs/seq/"@),
        zone_files != 0 && zone_sectors == 0 ==> (r matches Err(e) && e@
            == "Zone file /mnt/zonefs/seq/0 reports zero size"@),
        zone_files != 0 && zone_sectors != 0 ==> r == Ok::<(u32, u32, u32), String>(
            (zone_files as u32, (zone_sectors * 512) as u32, (zone_sectors * 512) as u32),
        ),
{
    if zone_files == 0 {
        return Err(String::from_str("No zone files found in /mnt/zonefs/seq/"));
    }
    let size_bytes = zone_sectors * 512;
    if size_bytes == 0 {
        return Err(String::from_str("Zone file /mnt/zonefs/seq/0 reports zero size"));
    }
    Ok((zone_files as u32, size_bytes as u32, size_bytes as u32))
}

/// Initializes zone configuration from the detected parameters, once: a configuration
/// already in place is kept. Detection must have succeeded when no configuration is in
/// place yet; the shim stops with `detection_failure` otherwise.
pub fn init_config(config: &mut Option<ZoneConfig>, detected: Result<(u32, u32, u32), String>)
    requires
        old(config).is_none() ==> detected is Ok,
    ensures
        old(config).is_some() ==> *final(config) == *old(config),
        old(config).is_none() ==> (detected matches Ok((n, s, c)) && *final(config) == Some(
            ZoneConfig { zone_num: n, zone_size: s, zone_capacity: c },
        )),
{
    if config.is_some() {
        return;
    }
    match detected {
        Ok((zone_num, zone_size, zone_capacity)) => {
            *config = Some(ZoneConfig { zone_num, zone_size, zone_capacity });
        },
        Err(_) => {},
    }
}

/// The message the shim stops with when zone detection failed with `error`.
pub fn detection_failure(error: &str) -> (msg: String)
    ensures
        msg@ == detection_failure_message(error@),
{
    let msg = String::from_str("Zone configuration detection failed: ");
    let msg = msg.concat(error);
    msg.concat(". Ensure ZoneFS is mounted at /mnt/zonefs/seq/")
}

/// Returns the number of zones detected from ZoneFS.
pub fn get_zone_num(config: &Option<ZoneConfig>) -> (n: u32)
    requires
        config.is_some(),
    ensures
        n == config.unwrap().zone_num,
{
    config.unwrap().zone_num
}

/// Returns the size of each zone in bytes.
pub fn get_zone_size(config: &Option<ZoneConfig>) -> (n: u32)
    requires
        config.is_some(),
    ensures
        n == config.unwrap().zone_size,
{
    config.unwrap().zone_size
}

/// Returns the capacity of each zone in bytes.
pub fn get_zone_capacity(config: &Option<ZoneConfig>) -> (n: u32)
    requires
        config.is_some(),
    ensures
        n == config.unwrap().zone_capacity,
{
    config.unwrap().zone_capacity
}

} // verus!
