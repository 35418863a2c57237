use shimmer::state::{
    align_to_page, detection_failure, get_zone_capacity, get_zone_num, get_zone_size, init_config, is_all_false,
    is_zero_u32, zone_config_from_probe, Extents, Files, LockedBuffer, ReadResponse, Stream,
    WriteRequest, WriteResponse, Zone, ZoneConfig,
};
use shimmer::statics::TrackedBuffer;

#[test]
fn align_to_page_rounds_up_to_blocks() {
    assert_eq!(align_to_page(0), 0);
    assert_eq!(align_to_page(1), 4096);
    assert_eq!(align_to_page(4095), 4096);
    assert_eq!(align_to_page(4096), 4096);
    assert_eq!(align_to_page(4097), 8192);
    assert_eq!(align_to_page(5000), 8192);
    assert_eq!(align_to_page(0xFFFF_F000), 0xFFFF_F000);
}

#[test]
fn aligning_twice_changes_nothing() {
    for size in [0u32, 1, 100, 4096, 4097, 65536, 123456] {
        let once = align_to_page(size);
        assert_eq!(align_to_page(once), once);
        assert_eq!(once % 4096, 0);
        assert!(once >= size && once < size + 4096);
    }
}

#[test]
fn serialization_helpers() {
    assert!(is_zero_u32(&0));
    assert!(!is_zero_u32(&7));
    assert!(is_all_false(&[]));
    assert!(is_all_false(&[false, false]));
    assert!(!is_all_false(&[false, true, false]));
}

#[test]
fn stream_names_and_default() {
    assert_eq!(Stream::LOG.display_name(), "Log");
    assert_eq!(Stream::SSTable.display_name(), "SSTable");
    assert_eq!(Stream::LSM.display_name(), "LSM");
    assert_eq!(Stream::Undefined.display_name(), "Undefined");
    assert_eq!(Stream::default(), Stream::Undefined);
}

#[test]
fn constructors_keep_their_fields() {
    let e = Extents::new(3, 4096, 100, 7);
    assert_eq!((e.zone, e.offset, e.actual_size, e.zone_extent_num), (3, 4096, 100, 7));
    let f = Files::new(42);
    assert_eq!(f.file_size, 42);
    assert!(f.extents.is_empty());
    let b = LockedBuffer::new(vec![1, 2, 3], true);
    assert_eq!(b.buffer, vec![1, 2, 3]);
    assert!(b.lock);
    let r = WriteRequest::new(1, 2, 3, Stream::LSM, 9);
    assert_eq!((r.id, r.file, r.buffer, r.stream, r.fd), (1, 2, 3, Stream::LSM, 9));
    assert_eq!(WriteResponse::new(5, 6, 7), WriteResponse { id: 5, fd: 6, buffer: 7 });
    let t = TrackedBuffer::new();
    assert!(t.is_free && t.data.is_empty());
    let d = TrackedBuffer::default();
    assert!(d.is_free && d.data.is_empty());
    let ok = ReadResponse::for_bytes_read(10);
    assert!(ok.success && ok.bytes_read == 10);
    assert!(!ReadResponse::for_bytes_read(0).success);
}

#[test]
fn files_duplicate_is_a_copy() {
    let mut f = Files::new(10);
    f.extents.push(Extents::new(1, 0, 10, 0));
    let g = f.duplicate();
    assert_eq!(g.file_size, 10);
    assert_eq!(g.extents.len(), 1);
    assert_eq!(g.extents[0].zone, 1);
}

#[test]
fn zone_extents_are_numbered_and_deleted_once() {
    let mut z = Zone::new();
    assert_eq!(z, Zone::default());
    assert_eq!(z.add_extent(), 0);
    assert_eq!(z.add_extent(), 1);
    assert_eq!(z.extent_count, 2);
    assert_eq!(z.deleted_extents, vec![false, false]);
    assert!(z.mark_extent_deleted(1, 500));
    assert!(!z.mark_extent_deleted(1, 500));
    assert_eq!(z.deleted_bytes, 500);
    assert!(!z.mark_extent_deleted(5, 500));
    assert_eq!(z.deleted_extent_count(), 1);
    assert!(!z.should_gc());
    z.mark_full();
    assert!(z.is_full);
    assert!(!z.should_gc());
    assert!(z.mark_extent_deleted(0, 100));
    assert!(z.should_gc());
    assert_eq!(z.deleted_bytes, 600);
    assert_eq!(z.deleted_extent_count(), 2);
    let copy = z.duplicate();
    assert_eq!(copy, z);
}

#[test]
fn zone_with_loaded_count_grows_its_flags() {
    // Metadata that left out its all-false flags: the flags catch up on the next extent.
    let mut z = Zone { extent_count: 3, deleted_extents: Vec::new(), is_full: false, deleted_bytes: 0 };
    assert!(z.should_gc() == false);
    assert_eq!(z.add_extent(), 3);
    assert_eq!(z.deleted_extents, vec![false, false, false, false]);
}

#[test]
fn empty_full_zone_is_reclaimable() {
    let mut z = Zone::new();
    z.mark_full();
    assert!(z.should_gc());
}

#[test]
fn deleted_bytes_wrap_like_the_release_build() {
    let mut z = Zone { extent_count: 1, deleted_extents: vec![false], is_full: false, deleted_bytes: u32::MAX };
    assert!(z.mark_extent_deleted(0, 2));
    assert_eq!(z.deleted_bytes, 1);
}

#[test]
fn zone_probe_detects_configuration() {
    assert_eq!(zone_config_from_probe(15, 262144), Ok((15, 134217728, 134217728)));
    assert_eq!(
        zone_config_from_probe(0, 262144),
        Err("No zone files found in /mnt/zonefs/seq/".to_string())
    );
    assert_eq!(
        zone_config_from_probe(4, 0),
        Err("Zone file /mnt/zonefs/seq/0 reports zero size".to_string())
    );
}

#[test]
fn init_config_sets_once() {
    let mut config: Option<ZoneConfig> = None;
    init_config(&mut config, Ok((15, 1024, 512)));
    assert_eq!(get_zone_num(&config), 15);
    assert_eq!(get_zone_size(&config), 1024);
    assert_eq!(get_zone_capacity(&config), 512);
    init_config(&mut config, Ok((2, 2, 2)));
    assert_eq!(get_zone_num(&config), 15);
    // Once set, the configuration stays, whatever a later detection reported.
    init_config(&mut config, Err("no zones".to_string()));
    assert_eq!(get_zone_capacity(&config), 512);
}

#[test]
fn init_config_reports_detection_failure() {
    assert_eq!(
        detection_failure("no zones"),
        "Zone configuration detection failed: no zones. Ensure ZoneFS is mounted at /mnt/zonefs/seq/"
            .to_string()
    );
}
