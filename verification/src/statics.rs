//! The state of the shim: its tables, the queue of free zones and its counters.
use vstd::prelude::*;
use dashmap::DashMap;
use std::collections::VecDeque;
use crate::state::{PREFERRED_BUFFER_SIZE, Stream, Files, FileView, Zone, ZoneView, ZoneConfig};
use crate::tables::{
    path_table, buffer_table, fd_table, stream_table, file_table, zone_table, hint_table,
    offset_table, path_table_new, buffer_table_new, fd_table_new, stream_table_new,
    file_table_new, zone_table_new, hint_table_new, offset_table_new, path_table_get,
    fd_table_get, stream_table_get, file_table_get, zone_table_get, buffer_table_len,
};

verus! {

/// Initial number of buffers in the pool (expands dynamically as needed).
pub const NUM_BUFFERS: usize = 16;

/// What a write buffer holds: its bytes and whether it is free for reuse.
pub struct BufferView {
    pub data: Seq<u8>,
    pub is_free: bool,
}

/// Buffer with usage tracking and pre-allocated capacity.
pub struct TrackedBuffer {
    /// The actual buffer data.
    pub data: Vec<u8>,
    /// Whether this buffer is currently available for allocation.
    pub is_free: bool,
}

impl View for TrackedBuffer {
    type V = BufferView;

    open spec fn view(&self) -> BufferView {
        BufferView { data: self.data@, is_free: self.is_free }
    }
}

impl TrackedBuffer {
    pub fn new() -> (b: Self)
        ensures
            b@ == (BufferView { data: Seq::empty(), is_free: true }),
    {
        TrackedBuffer { data: Vec::with_capacity(PREFERRED_BUFFER_SIZE), is_free: true }
    }
}

impl Default for TrackedBuffer {
    fn default() -> (b: Self)
        ensures
            b@ == (BufferView { data: Seq::empty(), is_free: true }),
    {
        TrackedBuffer::new()
    }
}

/// What the shim's state holds, table by table.
#[verifier::ext_equal]
pub struct ShimmerView {
    /// File paths to their file ids.
    pub paths: Map<Seq<char>, u32>,
    /// Buffer ids to write buffers.
    pub buffers: Map<u32, BufferView>,
    /// File descriptors to the buffer that collects their writes.
    pub fd_buffers: Map<i32, u32>,
    /// File descriptors to their file ids.
    pub fd_uids: Map<i32, u32>,
    /// File descriptors to their streams.
    pub fd_streams: Map<i32, Stream>,
    /// File ids to file metadata.
    pub files: Map<u32, FileView>,
    /// Zone numbers to zone metadata.
    pub zones: Map<u32, ZoneView>,
    /// Streams to the zone each currently writes to.
    pub stream_zones: Map<Stream, u32>,
    /// Zones available for allocation, in the order they are handed out.
    pub free_zones: Seq<u32>,
    /// Zones open for writing, with the offset of the next write.
    pub zone_offsets: Map<u32, u64>,
    /// The next file id.
    pub next_uid: u32,
    /// The next read request id.
    pub next_read_id: u32,
    /// The next write request id.
    pub next_write_id: u32,
    /// Total bytes written to zones.
    pub bytes_written: u64,
    /// The zone configuration, once detected.
    pub config: Option<ZoneConfig>,
}

/// The state the shim keeps across intercepted calls: file mappings, buffer pool, zone
/// allocations and counters.
pub struct ShimmerState {
    pub(crate) path_to_uid: DashMap<String, u32>,
    pub(crate) buffer_pool: DashMap<u32, TrackedBuffer>,
    pub(crate) file_to_buffer_pool: DashMap<i32, u32>,
    pub(crate) fd_to_uid: DashMap<i32, u32>,
    pub(crate) fd_to_stream: DashMap<i32, Stream>,
    pub(crate) filesystem: DashMap<u32, Files>,
    pub(crate) zone_metadata_map: DashMap<u32, Zone>,
    pub(crate) stream_to_hint: DashMap<Stream, u32>,
    pub(crate) free_zone: VecDeque<u32>,
    pub(crate) write_zones: DashMap<u32, u64>,
    pub(crate) uid: u32,
    pub(crate) read_id: u32,
    pub(crate) write_id: u32,
    pub(crate) bytes_written: u64,
    pub(crate) config: Option<ZoneConfig>,
}

impl View for ShimmerState {
    type V = ShimmerView;

    closed spec fn view(&self) -> ShimmerView {
        ShimmerView {
            paths: path_table(self.path_to_uid),
            buffers: buffer_table(self.buffer_pool),
            fd_buffers: fd_table(self.file_to_buffer_pool),
            fd_uids: fd_table(self.fd_to_uid),
            fd_streams: stream_table(self.fd_to_stream),
            files: file_table(self.filesystem),
            zones: zone_table(self.zone_metadata_map),
            stream_zones: hint_table(self.stream_to_hint),
            free_zones: self.free_zone@,
            zone_offsets: offset_table(self.write_zones),
            next_uid: self.uid,
            next_read_id: self.read_id,
            next_write_id: self.write_id,
            bytes_written: self.bytes_written,
            config: self.config,
        }
    }
}

/// How the view of the state is made of its tables.
pub(crate) broadcast proof fn lemma_state_view(s: ShimmerState)
    ensures
        #[trigger] s@ == (ShimmerView {
            paths: path_table(s.path_to_uid),
            buffers: buffer_table(s.buffer_pool),
            fd_buffers: fd_table(s.file_to_buffer_pool),
            fd_uids: fd_table(s.fd_to_uid),
            fd_streams: stream_table(s.fd_to_stream),
            files: file_table(s.filesystem),
            zones: zone_table(s.zone_metadata_map),
            stream_zones: hint_table(s.stream_to_hint),
            free_zones: s.free_zone@,
            zone_offsets: offset_table(s.write_zones),
            next_uid: s.uid,
            next_read_id: s.read_id,
            next_write_id: s.write_id,
            bytes_written: s.bytes_written,
            config: s.config,
        }),
{
}

/// The buffer pool is numbered densely: its ids are exactly the numbers below its size.
pub open spec fn pool_is_dense(b: Map<u32, BufferView>) -> bool {
    &&& b.dom().finite()
    &&& forall|k: u32| #[trigger] b.contains_key(k) <==> (k as int) < b.len()
}

/// The invariant of the shim's state.
pub open spec fn state_wf(v: ShimmerView) -> bool {
    &&& pool_is_dense(v.buffers)
    &&& forall|k: u32| #[trigger] v.buffers.contains_key(k) ==> v.buffers[k].data.len()
        <= PREFERRED_BUFFER_SIZE
    &&& forall|k: u32| #[trigger] v.buffers.contains_key(k) && v.buffers[k].is_free
        ==> v.buffers[k].data.len() == 0
    &&& v.fd_uids.dom() == v.fd_streams.dom()
    &&& forall|fd: i32| #[trigger] v.fd_buffers.contains_key(fd) ==> v.fd_uids.contains_key(fd)
        && v.buffers.contains_key(v.fd_buffers[fd]) && !v.buffers[v.fd_buffers[fd]].is_free
    &&& forall|fd1: i32, fd2: i32|
        #![trigger v.fd_buffers[fd1], v.fd_buffers[fd2]]
        v.fd_buffers.contains_key(fd1) && v.fd_buffers.contains_key(fd2) && fd1 != fd2
            ==> v.fd_buffers[fd1] != v.fd_buffers[fd2]
}

/// Whether some file descriptor collects its writes in buffer `k`.
pub open spec fn buffer_in_use_by_fd(v: ShimmerView, k: u32) -> bool {
    exists|fd: i32| #[trigger] v.fd_buffers.contains_key(fd) && v.fd_buffers[fd] == k
}

/// The state of a shim that has not yet seen any file, zone or buffer.
pub open spec fn empty_view() -> ShimmerView {
    ShimmerView {
        paths: Map::empty(),
        buffers: Map::empty(),
        fd_buffers: Map::empty(),
        fd_uids: Map::empty(),
        fd_streams: Map::empty(),
        files: Map::empty(),
        zones: Map::empty(),
        stream_zones: Map::empty(),
        free_zones: Seq::empty(),
        zone_offsets: Map::empty(),
        next_uid: 0,
        next_read_id: 0,
        next_write_id: 0,
        bytes_written: 0,
        config: None,
    }
}

impl ShimmerState {
    /// The invariant of the shim's state.
    pub open spec fn wf(&self) -> bool {
        state_wf(self@)
    }

    /// A state with no files, zones or buffers, and no zone configuration yet.
    pub fn new() -> (s: Self)
        ensures
            s@ == empty_view(),
            s.wf(),
    {
        let s = ShimmerState {
            path_to_uid: path_table_new(),
            buffer_pool: buffer_table_new(),
            file_to_buffer_pool: fd_table_new(),
            fd_to_uid: fd_table_new(),
            fd_to_stream: stream_table_new(),
            filesystem: file_table_new(),
            zone_metadata_map: zone_table_new(),
            stream_to_hint: hint_table_new(),
            free_zone: VecDeque::new(),
            write_zones: offset_table_new(),
            uid: 0,
            read_id: 0,
            write_id: 0,
            bytes_written: 0,
            config: None,
        };
        proof {
            assert(s@ =~= empty_view());
        }
        s
    }

    /// The zones available for allocation, in the order they are handed out.
    pub fn free_zone_list(&self) -> (zones: Vec<u32>)
        ensures
            zones@ == self@.free_zones,
    {
        let mut zones: Vec<u32> = Vec::new();
        let mut i: usize = 0;
        while i < self.free_zone.len()
            invariant
                0 <= i <= self.free_zone@.len(),
                zones@ == self.free_zone@.subrange(0, i as int),
            decreases self.free_zone@.len() - i,
        {
            zones.push(self.free_zone[i]);
            proof {
                assert(self.free_zone@.subrange(0, i as int + 1) =~= self.free_zone@.subrange(0, i as int).push(
                    self.free_zone@[i as int],
                ));
            }
            i = i + 1;
        }
        proof {
            assert(zones@ =~= self.free_zone@);
        }
        zones
    }

    /// A copy of the metadata of `zone`, if the shim has any.
    pub fn zone_metadata(&self, zone: u32) -> (z: Option<Zone>)
        ensures
            self@.zones.contains_key(zone) ==> z is Some && z.unwrap()@ == self@.zones[zone],
            !self@.zones.contains_key(zone) ==> z is None,
    {
        zone_table_get(&self.zone_metadata_map, zone)
    }

    /// A copy of the metadata of the file with id `uid`, if the shim has any.
    pub fn file_metadata(&self, uid: u32) -> (f: Option<Files>)
        ensures
            self@.files.contains_key(uid) ==> f is Some && f.unwrap()@ == self@.files[uid],
            !self@.files.contains_key(uid) ==> f is None,
    {
        file_table_get(&self.filesystem, uid)
    }

    /// The file id of the file at `path`, if the shim has one.
    pub fn uid_for_path(&self, path: &String) -> (uid: Option<u32>)
        ensures
            self@.paths.contains_key(path@) ==> uid == Some(self@.paths[path@]),
            !self@.paths.contains_key(path@) ==> uid is None,
    {
        path_table_get(&self.path_to_uid, path)
    }

    /// The file id of the file open as `fd`, if it is one of the shim's.
    pub fn uid_for_fd(&self, fd: i32) -> (uid: Option<u32>)
        ensures
            self@.fd_uids.contains_key(fd) ==> uid == Some(self@.fd_uids[fd]),
            !self@.fd_uids.contains_key(fd) ==> uid is None,
    {
        fd_table_get(&self.fd_to_uid, fd)
    }

    /// The stream of the file open as `fd`, if it is one of the shim's.
    pub fn stream_for_fd(&self, fd: i32) -> (stream: Option<Stream>)
        ensures
            self@.fd_streams.contains_key(fd) ==> stream == Some(self@.fd_streams[fd]),
            !self@.fd_streams.contains_key(fd) ==> stream is None,
    {
        stream_table_get(&self.fd_to_stream, fd)
    }

    /// The buffer that collects the writes of the file open as `fd`, if it has one.
    pub fn buffer_for_fd(&self, fd: i32) -> (buffer: Option<u32>)
        ensures
            self@.fd_buffers.contains_key(fd) ==> buffer == Some(self@.fd_buffers[fd]),
            !self@.fd_buffers.contains_key(fd) ==> buffer is None,
    {
        fd_table_get(&self.file_to_buffer_pool, fd)
    }

    /// The number of buffers in the pool.
    pub fn buffer_count(&self) -> (n: usize)
        ensures
            n == self@.buffers.len(),
    {
        buffer_table_len(&self.buffer_pool)
    }

    /// Total bytes written to zones.
    pub fn bytes_written(&self) -> (n: u64)
        ensures
            n == self@.bytes_written,
    {
        self.bytes_written
    }

    /// The zone configuration, once detected.
    pub fn config(&self) -> (c: Option<ZoneConfig>)
        ensures
            c == self@.config,
    {
        self.config
    }

    /// Takes the next read request id.
    pub fn next_read_id(&mut self) -> (id: u32)
        requires
            old(self).wf(),
        ensures
            final(self).wf(),
            id == old(self)@.next_read_id,
            final(self)@ == (ShimmerView {
                next_read_id: old(self)@.next_read_id.wrapping_add(1),
                ..old(self)@
            }),
    {
        let id = self.read_id;
        self.read_id = self.read_id.wrapping_add(1);
        proof {
            assert(self@ =~= (ShimmerView {
                next_read_id: old(self)@.next_read_id.wrapping_add(1),
                ..old(self)@
            }));
        }
        id
    }
}

} // verus!
