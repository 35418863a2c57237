use shimmer::helpers::{assign_zone, can_fit_buffer, get_unused_buffer, get_zone_utilization, return_buffer};
use shimmer::learning::{filename_feature, stream_for_cluster};
use shimmer::metadata::ShimmerMetadata;
use shimmer::persist::{
    after_zone_read, align_buffer, buffer_data, fd_file_extents, mmap_target, open_zone_writer, plan_read,
    plan_readahead, process_write_request, read_from_buffer, release_zone, write_chunks,
    zone_for_stream, zone_writer_offset, FileLookupError, ReadStep, MmapError, WriteError, WriteOutcome,
};
use shimmer::replacements::{
    append_to_buffer, close_fd, close_sync_request, handle_sync, handle_write, is_tracked_path,
    queue_buffer_for_write, register_open, setup, smart_wait, unlink_path, MetadataLoad,
    SetupError, WaitStep, WriteRoute,
};
use shimmer::state::{align_to_page, Extents, Files, Stream, WriteResponse, Zone, ZoneConfig, PREFERRED_BUFFER_SIZE};
use shimmer::statics::ShimmerState;
use shimmer::{format_timestamp, get_timestamp};

const MIB: u32 = 1024 * 1024;

fn config(zone_num: u32, zone_size: u32) -> ZoneConfig {
    ZoneConfig { zone_num, zone_size, zone_capacity: zone_size }
}

fn fresh_state(zone_num: u32, zone_size: u32) -> ShimmerState {
    setup(config(zone_num, zone_size), MetadataLoad::Missing).ok().unwrap()
}

#[test]
fn setup_without_metadata_reserves_first_zones() {
    let s = fresh_state(15, 128 * MIB);
    assert_eq!(zone_for_stream(&s, Stream::LOG), Some(2));
    assert_eq!(zone_for_stream(&s, Stream::SSTable), Some(3));
    assert_eq!(zone_for_stream(&s, Stream::LSM), None);
    assert_eq!(s.free_zone_list(), (4..15).collect::<Vec<u32>>());
    assert_eq!(s.buffer_count(), 16);
    for zone in 0..15 {
        assert_eq!(s.zone_metadata(zone), Some(Zone::new()));
    }
    assert_eq!(s.zone_metadata(15), None);
}

#[test]
fn setup_after_failed_load_frees_every_zone() {
    let s = setup(config(4, MIB), MetadataLoad::Failed).ok().unwrap();
    assert_eq!(zone_for_stream(&s, Stream::LOG), Some(0));
    assert_eq!(zone_for_stream(&s, Stream::SSTable), Some(1));
    assert_eq!(s.free_zone_list(), vec![2, 3]);
}

#[test]
fn setup_needs_two_free_zones() {
    assert_eq!(setup(config(3, MIB), MetadataLoad::Missing).err(), Some(SetupError::NotEnoughFreeZones));
    assert_eq!(setup(config(1, MIB), MetadataLoad::Failed).err(), Some(SetupError::NotEnoughFreeZones));
}

#[test]
fn setup_restores_saved_metadata() {
    let m = ShimmerMetadata {
        path_to_uid: vec![("/mnt/shimmer/1.sst".to_string(), 4)],
        filesystem: vec![(4, Files::new(77))],
        zone_metadata: vec![(9, Zone::new())],
        free_zones: vec![7, 8, 9],
        next_uid: 5,
    };
    let s = setup(config(15, MIB), MetadataLoad::Loaded(m)).ok().unwrap();
    assert_eq!(zone_for_stream(&s, Stream::LOG), Some(7));
    assert_eq!(zone_for_stream(&s, Stream::SSTable), Some(8));
    assert_eq!(s.free_zone_list(), vec![9]);
    assert_eq!(s.uid_for_path(&"/mnt/shimmer/1.sst".to_string()), Some(4));
    assert_eq!(s.file_metadata(4).unwrap().file_size, 77);
    assert_eq!(s.zone_metadata(0), None);
    assert!(s.zone_metadata(9).is_some());
}

#[test]
fn buffers_are_claimed_lowest_first_and_returned() {
    let mut s = ShimmerState::new();
    assert_eq!(get_unused_buffer(&mut s), 0);
    assert_eq!(get_unused_buffer(&mut s), 1);
    assert_eq!(get_unused_buffer(&mut s), 2);
    return_buffer(&mut s, 1);
    return_buffer(&mut s, 0);
    assert_eq!(get_unused_buffer(&mut s), 0);
    assert_eq!(get_unused_buffer(&mut s), 1);
    assert_eq!(get_unused_buffer(&mut s), 3);
    assert_eq!(s.buffer_count(), 4);
    // A buffer id that names nothing changes nothing.
    return_buffer(&mut s, 99);
    assert_eq!(s.buffer_count(), 4);
}

#[test]
fn returned_buffer_loses_its_bytes() {
    let mut s = fresh_state(6, MIB);
    let fd = 10;
    register_open(&mut s, &"/db/000001.log".to_string(), fd, Stream::LOG);
    let _ = handle_write(&mut s, fd, &[1, 2, 3]);
    let b = s.buffer_for_fd(fd).unwrap();
    assert_eq!(buffer_data(&s, b), Some(vec![1, 2, 3]));
    close_fd(&mut s, fd);
    assert_eq!(buffer_data(&s, b), Some(vec![]));
    // The returned buffer is the first one claimed again.
    assert_eq!(get_unused_buffer(&mut s), b);
}

#[test]
fn returning_a_mapped_buffer_leaves_the_mapping() {
    let mut s = fresh_state(6, MIB);
    let fd = 10;
    register_open(&mut s, &"/db/000002.log".to_string(), fd, Stream::LOG);
    let _ = handle_write(&mut s, fd, &[4, 5]);
    let b = s.buffer_for_fd(fd).unwrap();
    return_buffer(&mut s, b);
    assert_eq!(buffer_data(&s, b), Some(vec![]));
    assert_eq!(s.buffer_for_fd(fd), Some(b));
}

#[test]
fn assign_zone_takes_the_head_of_the_free_queue() {
    let mut s = fresh_state(8, MIB);
    assign_zone(&mut s, Stream::LSM);
    assert_eq!(zone_for_stream(&s, Stream::LSM), Some(4));
    assign_zone(&mut s, Stream::LOG);
    assert_eq!(zone_for_stream(&s, Stream::LOG), Some(5));
    assert_eq!(s.free_zone_list(), vec![6, 7]);
    release_zone(&mut s, 2);
    assert_eq!(s.free_zone_list(), vec![6, 7, 2]);
}

#[test]
fn tracked_paths() {
    assert!(is_tracked_path("/db/000012.sst"));
    assert!(is_tracked_path("/db/LOG.log"));
    assert!(is_tracked_path("x.lsm"));
    assert!(is_tracked_path(".sst"));
    assert!(!is_tracked_path("/db/MANIFEST-000001"));
    assert!(!is_tracked_path("/db/a.sst2"));
    assert!(!is_tracked_path("sst"));
    assert!(!is_tracked_path(""));
}

#[test]
fn reopening_a_path_keeps_its_id() {
    let mut s = fresh_state(6, MIB);
    let a = "/db/000001.sst".to_string();
    let b = "/db/000002.sst".to_string();
    assert_eq!(register_open(&mut s, &a, 10, Stream::SSTable), 0);
    assert_eq!(register_open(&mut s, &b, 11, Stream::SSTable), 1);
    // The id counter advances on every open, even for a known path.
    assert_eq!(register_open(&mut s, &a, 12, Stream::LOG), 0);
    assert_eq!(register_open(&mut s, &"/db/3.sst".to_string(), 13, Stream::LOG), 3);
    assert_eq!(s.uid_for_fd(12), Some(0));
    assert_eq!(s.stream_for_fd(12), Some(Stream::LOG));
    assert_eq!(s.file_metadata(0).unwrap().file_size, 0);
}

#[test]
fn a_descriptor_keeps_its_first_stream() {
    let mut s = fresh_state(6, MIB);
    register_open(&mut s, &"/db/1.sst".to_string(), 10, Stream::SSTable);
    register_open(&mut s, &"/db/2.log".to_string(), 10, Stream::LOG);
    assert_eq!(s.stream_for_fd(10), Some(Stream::SSTable));
    assert_eq!(s.uid_for_fd(10), Some(1));
}

#[test]
fn writes_to_other_files_pass_through() {
    let mut s = fresh_state(6, MIB);
    assert!(matches!(handle_write(&mut s, 42, &[1, 2, 3]), WriteRoute::PassThrough));
    assert_eq!(s.buffer_for_fd(42), None);
}

#[test]
fn small_writes_are_buffered_and_read_back() {
    let mut s = fresh_state(6, MIB);
    let fd = 10;
    register_open(&mut s, &"/db/1.sst".to_string(), fd, Stream::SSTable);
    match handle_write(&mut s, fd, b"hello ") {
        WriteRoute::Buffered { requests, write_through } => {
            assert!(requests.is_empty());
            assert!(!write_through);
        }
        WriteRoute::PassThrough => panic!("tracked file passed through"),
    }
    let _ = handle_write(&mut s, fd, b"world");
    assert_eq!(read_from_buffer(&s, fd, 11, 0, 0), b"hello world".to_vec());
    assert_eq!(read_from_buffer(&s, fd, 3, 6, 0), b"wor".to_vec());
    assert_eq!(read_from_buffer(&s, fd, 100, 106, 100), b"world".to_vec());
    assert_eq!(read_from_buffer(&s, fd, 5, 11, 0), Vec::<u8>::new());
    assert_eq!(read_from_buffer(&s, fd, 5, -1, 0), Vec::<u8>::new());
    assert_eq!(read_from_buffer(&s, 99, 5, 0, 0), Vec::<u8>::new());
}

#[test]
fn block_sized_writes_also_go_through() {
    let mut s = fresh_state(6, MIB);
    register_open(&mut s, &"/db/1.sst".to_string(), 10, Stream::SSTable);
    match handle_write(&mut s, 10, &[7u8; 4096]) {
        WriteRoute::Buffered { write_through, .. } => assert!(write_through),
        WriteRoute::PassThrough => panic!("tracked file passed through"),
    }
}

#[test]
fn full_buffers_are_handed_to_the_writer() {
    let mut s = fresh_state(6, MIB);
    let fd = 10;
    register_open(&mut s, &"/db/1.sst".to_string(), fd, Stream::SSTable);
    let data: Vec<u8> = (0..PREFERRED_BUFFER_SIZE + 10).map(|i| (i % 251) as u8).collect();
    let requests = match handle_write(&mut s, fd, &data) {
        WriteRoute::Buffered { requests, .. } => requests,
        WriteRoute::PassThrough => panic!("tracked file passed through"),
    };
    assert_eq!(requests.len(), 1);
    let first = requests[0];
    assert_eq!(first.id, 0);
    assert_eq!(first.fd, fd);
    assert_eq!(first.file, 0);
    assert_eq!(first.stream, Stream::SSTable);
    assert_eq!(first.buffer, 0);
    let next = s.buffer_for_fd(fd).unwrap();
    assert_eq!(next, 1);
    let full = buffer_data(&s, 0).unwrap();
    let rest = buffer_data(&s, 1).unwrap();
    assert_eq!(full.len(), PREFERRED_BUFFER_SIZE);
    assert_eq!(rest.len(), 10);
    let mut joined = full.clone();
    joined.extend_from_slice(&rest);
    assert_eq!(joined, data);
}

#[test]
fn a_full_buffer_is_handed_over_before_more_bytes() {
    let mut s = fresh_state(6, MIB);
    let fd = 10;
    register_open(&mut s, &"/db/1.sst".to_string(), fd, Stream::SSTable);
    let data = vec![1u8; PREFERRED_BUFFER_SIZE];
    match handle_write(&mut s, fd, &data) {
        WriteRoute::Buffered { requests, .. } => assert!(requests.is_empty()),
        WriteRoute::PassThrough => panic!("tracked file passed through"),
    }
    let b = s.buffer_for_fd(fd).unwrap();
    let requests = append_to_buffer(&mut s, fd, b, Stream::SSTable, &[9, 9]);
    assert_eq!(requests.len(), 1);
    assert_eq!(requests[0].buffer, b);
    let now = s.buffer_for_fd(fd).unwrap();
    assert_ne!(now, b);
    assert_eq!(buffer_data(&s, now), Some(vec![9, 9]));
}

#[test]
fn sync_and_close_hand_over_the_buffer() {
    let mut s = fresh_state(6, MIB);
    register_open(&mut s, &"/db/1.sst".to_string(), 10, Stream::SSTable);
    assert!(handle_sync(&mut s, 10).is_none());
    let _ = handle_write(&mut s, 10, b"abc");
    let r = handle_sync(&mut s, 10).unwrap();
    assert_eq!((r.id, r.file, r.buffer, r.stream, r.fd), (0, 0, 0, Stream::SSTable, 10));
    let r2 = close_sync_request(&mut s, 10).unwrap();
    assert_eq!(r2.id, 1);
    let r3 = queue_buffer_for_write(&mut s, 10, 0, Stream::LOG);
    assert_eq!((r3.id, r3.stream), (2, Stream::LOG));
    close_fd(&mut s, 10);
    assert_eq!(s.uid_for_fd(10), None);
    assert_eq!(s.stream_for_fd(10), None);
    assert_eq!(s.buffer_for_fd(10), None);
    assert!(close_sync_request(&mut s, 10).is_none());
}

#[test]
fn low_descriptors_are_left_alone_on_close() {
    let mut s = fresh_state(6, MIB);
    register_open(&mut s, &"/db/1.sst".to_string(), 3, Stream::SSTable);
    let _ = handle_write(&mut s, 3, b"abc");
    assert!(close_sync_request(&mut s, 3).is_none());
    close_fd(&mut s, 3);
    assert_eq!(s.uid_for_fd(3), Some(0));
    assert!(s.buffer_for_fd(3).is_some());
}

/// Opens `path` as `fd`, writes `data`, and persists it through the writer.
fn write_and_persist(s: &mut ShimmerState, path: &str, fd: i32, stream: Stream, data: &[u8]) -> WriteOutcome {
    register_open(s, &path.to_string(), fd, stream);
    let _ = handle_write(s, fd, data);
    let request = handle_sync(s, fd).unwrap();
    let zone = zone_for_stream(s, stream).unwrap();
    open_zone_writer(s, zone, 0);
    process_write_request(s, &request).ok().unwrap()
}

#[test]
fn persisting_a_buffer_records_its_extent() {
    let mut s = fresh_state(6, MIB);
    let outcome = write_and_persist(&mut s, "/db/1.sst", 10, Stream::SSTable, &[5u8; 5000]);
    match outcome {
        WriteOutcome::Write { zone, aligned_size, pad_after, response } => {
            assert_eq!(zone, 3);
            assert_eq!(aligned_size, 8192);
            assert_eq!(pad_after, None);
            assert_eq!(response, WriteResponse { id: 0, fd: 10, buffer: 0 });
        }
        _ => panic!("expected a write"),
    }
    let f = s.file_metadata(0).unwrap();
    assert_eq!(f.file_size, 5000);
    assert_eq!(f.extents.len(), 1);
    let e = f.extents[0];
    assert_eq!((e.zone, e.offset, e.actual_size, e.zone_extent_num), (3, 0, 5000, 0));
    assert_eq!(zone_writer_offset(&s, 3), Some(8192));
    assert_eq!(s.bytes_written(), 8192);
    assert_eq!(s.zone_metadata(3).unwrap().extent_count, 1);
    assert_eq!(get_zone_utilization(&s, 3), 0);
    assert_eq!(get_zone_utilization(&s, 4), 0);
    assert!(can_fit_buffer(&s, 3, MIB - 8192));
    assert!(!can_fit_buffer(&s, 3, MIB - 8191));
    // Zone 4 is not open: a buffer fits when, rounded up to blocks, it fits in the
    // whole zone capacity.
    assert!(can_fit_buffer(&s, 4, MIB));
    assert!(!can_fit_buffer(&s, 4, MIB + 1));
    // A read of the file is served from the zone range that holds it.
    let extents = fd_file_extents(&s, 10).unwrap();
    let plan = plan_read(&extents, 100, 50);
    assert_eq!(plan.zone_reads.len(), 1);
    assert_eq!((plan.zone_reads[0].zone, plan.zone_reads[0].zone_offset, plan.zone_reads[0].len), (3, 100, 50));
    assert!(plan.buffer_read.is_none());
}

#[test]
fn empty_buffer_completes_at_once() {
    let mut s = fresh_state(6, MIB);
    register_open(&mut s, &"/db/1.sst".to_string(), 10, Stream::SSTable);
    let _ = handle_write(&mut s, 10, &[]);
    let request = handle_sync(&mut s, 10).unwrap();
    open_zone_writer(&mut s, 3, 0);
    match process_write_request(&mut s, &request) {
        Ok(WriteOutcome::Complete(r)) => assert_eq!(r, WriteResponse { id: 0, fd: 10, buffer: 0 }),
        _ => panic!("expected completion"),
    }
    assert_eq!(zone_writer_offset(&s, 3), Some(0));
}

#[test]
fn filling_a_zone_rotates_the_stream() {
    let mut s = fresh_state(6, 8192);
    let outcome = write_and_persist(&mut s, "/db/1.sst", 10, Stream::SSTable, &[1u8; 5000]);
    match outcome {
        WriteOutcome::Write { zone, aligned_size, pad_after, .. } => {
            assert_eq!((zone, aligned_size, pad_after), (3, 8192, Some(8192)));
        }
        _ => panic!("expected a write"),
    }
    assert!(s.zone_metadata(3).unwrap().is_full);
    assert_eq!(zone_writer_offset(&s, 3), None);
    assert_eq!(zone_for_stream(&s, Stream::SSTable), Some(4));
    assert_eq!(s.free_zone_list(), vec![5]);
}

#[test]
fn a_buffer_too_big_for_the_zone_is_retried_elsewhere() {
    let mut s = fresh_state(6, 8192);
    register_open(&mut s, &"/db/1.sst".to_string(), 10, Stream::SSTable);
    let _ = handle_write(&mut s, 10, &[1u8; 5000]);
    let request = handle_sync(&mut s, 10).unwrap();
    open_zone_writer(&mut s, 3, 4096);
    match process_write_request(&mut s, &request) {
        Ok(WriteOutcome::Retry { zone, pad_to }) => assert_eq!((zone, pad_to), (3, 8192)),
        _ => panic!("expected a retry"),
    }
    assert!(s.zone_metadata(3).unwrap().is_full);
    assert_eq!(zone_for_stream(&s, Stream::SSTable), Some(4));
    assert!(s.file_metadata(0).unwrap().extents.is_empty());
}

#[test]
fn rotation_without_free_zones_is_refused() {
    let mut s = setup(config(4, 8192), MetadataLoad::Missing).ok().unwrap();
    assert!(s.free_zone_list().is_empty());
    register_open(&mut s, &"/db/1.sst".to_string(), 10, Stream::SSTable);
    let _ = handle_write(&mut s, 10, &[1u8; 5000]);
    let request = handle_sync(&mut s, 10).unwrap();
    open_zone_writer(&mut s, 3, 0);
    assert_eq!(process_write_request(&mut s, &request).err(), Some(WriteError::NoFreeZone));
    assert_eq!(zone_writer_offset(&s, 3), Some(0));
}

#[test]
fn utilization_is_a_percentage_of_capacity() {
    let mut s = fresh_state(6, MIB);
    open_zone_writer(&mut s, 4, (MIB / 2) as u64);
    assert_eq!(get_zone_utilization(&s, 4), 50);
    // An open zone keeps its offset.
    open_zone_writer(&mut s, 4, 0);
    assert_eq!(get_zone_utilization(&s, 4), 50);
    open_zone_writer(&mut s, 5, MIB as u64);
    assert_eq!(get_zone_utilization(&s, 5), 100);
}

#[test]
fn reads_span_extents_and_the_buffer() {
    let extents = vec![Extents::new(3, 0, 100, 0), Extents::new(0, 0, 0, 5), Extents::new(4, 4096, 50, 1)];
    let plan = plan_read(&extents, 90, 30);
    let reads: Vec<_> = plan.zone_reads.iter().map(|r| (r.zone, r.zone_offset, r.len)).collect();
    assert_eq!(reads, vec![(3, 90, 10), (4, 4096, 20)]);
    assert!(plan.buffer_read.is_none());

    let plan = plan_read(&extents, 140, 20);
    let reads: Vec<_> = plan.zone_reads.iter().map(|r| (r.zone, r.zone_offset, r.len)).collect();
    assert_eq!(reads, vec![(4, 4136, 10)]);
    let tail = plan.buffer_read.unwrap();
    assert_eq!((tail.file_offset, tail.buffer_start, tail.count, tail.dest_offset), (150, 150, 10, 10));

    let plan = plan_read(&extents, 200, 5);
    assert!(plan.zone_reads.is_empty());
    let tail = plan.buffer_read.unwrap();
    assert_eq!((tail.file_offset, tail.buffer_start, tail.count, tail.dest_offset), (200, 150, 5, 0));

    let plan = plan_read(&Vec::new(), 0, 5);
    assert!(plan.zone_reads.is_empty());
    assert_eq!(plan.buffer_read.unwrap().buffer_start, 0);

    let plan = plan_read(&extents, -1, 5);
    assert!(plan.zone_reads.is_empty());
    assert_eq!(plan.buffer_read.unwrap().file_offset, -1);
}

#[test]
fn readahead_covers_overlapping_extents() {
    let extents = vec![Extents::new(3, 0, 100, 0), Extents::new(4, 4096, 50, 1), Extents::new(5, 0, 10, 0)];
    let ranges: Vec<_> = plan_readahead(&extents, 50, 80).iter().map(|r| (r.zone, r.zone_offset, r.count)).collect();
    assert_eq!(ranges, vec![(3, 50, 50), (4, 4096, 30)]);
    assert!(plan_readahead(&extents, 500, 10).is_empty());
    assert!(plan_readahead(&Vec::new(), 0, 10).is_empty());
}

#[test]
fn mmap_is_redirected_to_the_extent() {
    let extents = vec![Extents::new(3, 0, 100, 0), Extents::new(4, 4096, 50, 1)];
    let t = mmap_target(&extents, 120, 10).unwrap();
    assert_eq!((t.zone, t.zone_offset, t.exceeds_extent), (4, 4116, false));
    let t = mmap_target(&extents, 120, 40).unwrap();
    assert!(t.exceeds_extent);
    assert_eq!(mmap_target(&extents, 150, 1).err(), Some(MmapError::BeyondFile));
    assert_eq!(mmap_target(&Vec::new(), 0, 1).err(), Some(MmapError::NoExtents));
}

#[test]
fn file_lookup_errors() {
    let mut s = fresh_state(6, MIB);
    assert_eq!(fd_file_extents(&s, 10).err(), Some(FileLookupError::NotTracked));
    register_open(&mut s, &"/db/1.sst".to_string(), 10, Stream::SSTable);
    assert_eq!(fd_file_extents(&s, 10).unwrap().len(), 0);
    unlink_path(&mut s, &"/db/1.sst".to_string());
    assert_eq!(fd_file_extents(&s, 10).err(), Some(FileLookupError::NoFileInfo));
}

#[test]
fn buffers_are_written_in_chunks() {
    assert_eq!(write_chunks(0), Vec::<usize>::new());
    assert_eq!(write_chunks(10), vec![10]);
    assert_eq!(write_chunks(65536), vec![65536]);
    assert_eq!(write_chunks(2 * 65536 + 10), vec![65536, 65536, 10]);
}

#[test]
fn buffers_are_padded_to_blocks() {
    let mut b = vec![1u8; 5000];
    align_buffer(&mut b);
    assert_eq!(b.len(), 8192);
    assert!(b[..5000].iter().all(|&x| x == 1));
    assert!(b[5000..].iter().all(|&x| x == 0));
    let mut e: Vec<u8> = Vec::new();
    align_buffer(&mut e);
    assert!(e.is_empty());
}

#[test]
fn unlink_deletes_extents_and_reports_reclaimable_zones() {
    let mut s = fresh_state(6, 8192);
    // Fill zone 3 with one file; the zone is full afterwards.
    let _ = write_and_persist(&mut s, "/db/1.sst", 10, Stream::SSTable, &[1u8; 5000]);
    // A second file goes to zone 4, which stays open.
    let _ = write_and_persist(&mut s, "/db/2.sst", 11, Stream::SSTable, &[2u8; 100]);
    let gc = unlink_path(&mut s, &"/db/1.sst".to_string());
    assert_eq!(gc, vec![3]);
    let z = s.zone_metadata(3).unwrap();
    assert_eq!(z.deleted_extents, vec![true]);
    assert_eq!(z.deleted_bytes, 5000);
    assert!(z.should_gc());
    assert_eq!(s.uid_for_path(&"/db/1.sst".to_string()), None);
    assert!(s.file_metadata(0).is_none());
    // The zone of the second file is not full, so nothing is reclaimed.
    assert!(unlink_path(&mut s, &"/db/2.sst".to_string()).is_empty());
    assert_eq!(s.zone_metadata(4).unwrap().deleted_extents, vec![true]);
    // Unlinking an unknown path changes nothing.
    assert!(unlink_path(&mut s, &"/db/none.sst".to_string()).is_empty());
}

#[test]
fn metadata_round_trip() {
    let mut s = fresh_state(6, MIB);
    let _ = write_and_persist(&mut s, "/db/1.sst", 10, Stream::SSTable, &[5u8; 300]);
    let saved = ShimmerMetadata::from_globals(&s);
    assert_eq!(saved.next_uid, 1);
    assert_eq!(saved.free_zones, vec![4, 5]);
    assert_eq!(saved.path_to_uid, vec![("/db/1.sst".to_string(), 0)]);
    assert_eq!(saved.filesystem.len(), 1);
    assert_eq!(saved.zone_metadata.len(), 6);

    let mut other = fresh_state(6, MIB);
    register_open(&mut other, &"/db/9.sst".to_string(), 20, Stream::LOG);
    saved.restore_to_globals(&mut other);
    assert_eq!(other.uid_for_path(&"/db/9.sst".to_string()), None);
    assert_eq!(other.uid_for_path(&"/db/1.sst".to_string()), Some(0));
    assert_eq!(other.file_metadata(0).unwrap().extents[0].actual_size, 300);
    assert_eq!(other.free_zone_list(), vec![4, 5]);
    assert_eq!(other.zone_metadata(3).unwrap().extent_count, 1);
    // The descriptor tables are not part of the saved state.
    assert_eq!(other.uid_for_fd(20), Some(0));
}

#[test]
fn wait_backoff() {
    assert_eq!(smart_wait(0), WaitStep::Yield);
    assert_eq!(smart_wait(20), WaitStep::Yield);
    assert_eq!(smart_wait(21), WaitStep::Spin);
    assert_eq!(smart_wait(1000), WaitStep::Spin);
    assert_eq!(smart_wait(1001), WaitStep::Sleep(10));
}

#[test]
fn filename_features() {
    assert_eq!(filename_feature("000012.sst"), 115 + 115 + 116);
    assert_eq!(filename_feature("a.b.c"), 98 + 46 + 99);
    assert_eq!(filename_feature("LOG"), 0);
    assert_eq!(filename_feature("x."), 0);
    assert_eq!(stream_for_cluster(0), Stream::LOG);
    assert_eq!(stream_for_cluster(1), Stream::SSTable);
}

#[test]
fn timestamps() {
    assert_eq!(format_timestamp(3661, 5_000_000), "01:01:01.005");
    assert_eq!(format_timestamp(86400 + 59, 999_999_999), "00:00:59.999");
    assert_eq!(format_timestamp(86399, 0), "23:59:59.000");
    let now = get_timestamp().unwrap();
    assert_eq!(now.len(), 12);
    assert_eq!(&now[2..3], ":");
    assert_eq!(&now[8..9], ".");
}

#[test]
fn later_extents_of_a_zone_follow_earlier_ones() {
    let mut s = fresh_state(6, MIB);
    let _ = write_and_persist(&mut s, "/db/1.sst", 10, Stream::SSTable, &[1u8; 5000]);
    let _ = write_and_persist(&mut s, "/db/2.sst", 11, Stream::SSTable, &[2u8; 100]);
    let first = s.file_metadata(0).unwrap().extents[0];
    let second = s.file_metadata(1).unwrap().extents[0];
    assert_eq!(first.zone, second.zone);
    assert_eq!(second.offset, align_to_page(first.actual_size));
    assert_eq!((first.zone_extent_num, second.zone_extent_num), (0, 1));
    assert_eq!(s.file_metadata(1).unwrap().file_size, 100);
    assert_eq!(zone_writer_offset(&s, 3), Some(8192 + 4096));
}

#[test]
fn a_buffer_in_use_is_not_claimed_again() {
    let mut s = ShimmerState::new();
    let a = get_unused_buffer(&mut s);
    let b = get_unused_buffer(&mut s);
    assert_ne!(a, b);
    return_buffer(&mut s, a);
    let c = get_unused_buffer(&mut s);
    assert_eq!(c, a);
    assert_ne!(get_unused_buffer(&mut s), b);
}

#[test]
fn zone_reads_stop_on_failure_or_short_read() {
    assert_eq!(after_zone_read(10, 50, 50), ReadStep { total: 60, go_on: true });
    assert_eq!(after_zone_read(10, 50, 20), ReadStep { total: 30, go_on: false });
    assert_eq!(after_zone_read(10, 50, 0), ReadStep { total: 10, go_on: false });
    assert_eq!(after_zone_read(10, 50, -1), ReadStep { total: 10, go_on: false });
}
