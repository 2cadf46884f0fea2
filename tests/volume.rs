use exfat::cluster::{ClustersReader, NewError as ClustersNewError, ReadError};
use exfat::directory::{DirectoryError, Item};
use exfat::disk::{read_exact, DiskPartition, MemoryError, MemoryPartition};
use exfat::entries::{decode_utc_offset, entry_set_checksum, EntryType, FileEntryError};
use exfat::file::{File, NewError as FileNewError, SeekError, SeekFrom};
use exfat::param::Params;
use exfat::timestamp::Timestamp;
use exfat::fat::LoadError;
use exfat::{ExFat, FileAttributes, Root, RootError};
use std::sync::Arc;

const CLUSTER: usize = 512;

fn cluster_offset(c: usize) -> usize {
    1024 + (c - 2) * CLUSTER
}

fn put_u16(b: &mut [u8], at: usize, v: u16) {
    b[at..at + 2].copy_from_slice(&v.to_le_bytes());
}

fn put_u32(b: &mut [u8], at: usize, v: u32) {
    b[at..at + 4].copy_from_slice(&v.to_le_bytes());
}

fn put_u64(b: &mut [u8], at: usize, v: u64) {
    b[at..at + 8].copy_from_slice(&v.to_le_bytes());
}

fn checksum(set: &[u8]) -> u16 {
    let mut c: u16 = 0;
    for (i, &b) in set.iter().enumerate() {
        if i == 2 || i == 3 {
            continue;
        }
        c = ((c << 15) | (c >> 1)).wrapping_add(b as u16);
    }
    c
}

fn stamp(year: u32, month: u32, day: u32, hour: u32, minute: u32, second: u32) -> u32 {
    ((year - 1980) << 25) | (month << 21) | (day << 16) | (hour << 11) | (minute << 5) | (second / 2)
}

struct SetSpec<'a> {
    name: &'a str,
    attributes: u16,
    created: u32,
    modified: u32,
    accessed: u32,
    first_cluster: u32,
    valid_data_length: u64,
    data_length: u64,
    no_fat_chain: bool,
}

fn entry_set(s: &SetSpec) -> Vec<u8> {
    let units: Vec<u16> = s.name.encode_utf16().collect();
    let names = (units.len() + 14) / 15;
    let mut set = vec![0u8; 32 * (2 + names)];
    set[0] = 0x85;
    set[1] = (1 + names) as u8;
    put_u16(&mut set, 4, s.attributes);
    put_u32(&mut set, 8, s.created);
    put_u32(&mut set, 12, s.modified);
    put_u32(&mut set, 16, s.accessed);
    set[22] = 0x80;
    set[23] = 0x80;
    set[24] = 0x80;
    set[32] = 0xC0;
    set[33] = if s.no_fat_chain { 3 } else { 1 };
    set[35] = units.len() as u8;
    put_u64(&mut set, 40, s.valid_data_length);
    put_u32(&mut set, 52, s.first_cluster);
    put_u64(&mut set, 56, s.data_length);
    for k in 0..names {
        let base = 64 + 32 * k;
        set[base] = 0xC1;
        for j in 0..15 {
            let i = 15 * k + j;
            if i < units.len() {
                put_u16(&mut set, base + 2 + 2 * j, units[i]);
            }
        }
    }
    let c = checksum(&set);
    put_u16(&mut set, 2, c);
    set
}

fn big_content() -> Vec<u8> {
    (0..1000u32).map(|i| (i % 251) as u8).collect()
}

/// A volume with 512-byte clusters 2 to 9: the root directory in 2, the
/// bitmap in 3, the up-case table in 4, "file1" in 5, "dir1" in 6 and
/// "file2" in 7. With `big`, a file "big" of 1000 bytes in clusters 9 then
/// 8.
fn build_image(big: bool) -> Vec<u8> {
    let mut img = vec![0u8; 1024 + 8 * CLUSTER];
    img[3..11].copy_from_slice(b"EXFAT   ");
    put_u32(&mut img, 80, 1);
    put_u32(&mut img, 84, 1);
    put_u32(&mut img, 88, 2);
    put_u32(&mut img, 92, 8);
    put_u32(&mut img, 96, 2);
    img[108] = 9;
    img[109] = 0;
    img[110] = 1;

    let mut fat = [0xFFFFFFFFu32; 10];
    fat[0] = 0xFFFFFFF8;
    fat[8] = 0xFFFFFFFF;
    fat[9] = 8;
    for (i, v) in fat.iter().enumerate() {
        put_u32(&mut img, 512 + 4 * i, *v);
    }

    let mut root: Vec<u8> = Vec::new();
    let mut label = [0u8; 32];
    label[0] = 0x83;
    label[1] = 10;
    for (i, u) in "Test image".encode_utf16().enumerate() {
        put_u16(&mut label, 2 + 2 * i, u);
    }
    root.extend_from_slice(&label);
    let mut bitmap = [0u8; 32];
    bitmap[0] = 0x81;
    put_u32(&mut bitmap, 20, 3);
    put_u64(&mut bitmap, 24, 1);
    root.extend_from_slice(&bitmap);
    let mut upcase = [0u8; 32];
    upcase[0] = 0x82;
    put_u32(&mut upcase, 20, 4);
    put_u64(&mut upcase, 24, 512);
    root.extend_from_slice(&upcase);
    root.extend(entry_set(&SetSpec {
        name: "dir1",
        attributes: 0x10,
        created: stamp(2023, 3, 6, 13, 2, 32),
        modified: stamp(2023, 3, 6, 13, 3, 18),
        accessed: stamp(2023, 3, 6, 13, 2, 32),
        first_cluster: 6,
        valid_data_length: 512,
        data_length: 512,
        no_fat_chain: false,
    }));
    root.extend(entry_set(&SetSpec {
        name: "file1",
        attributes: 0x20,
        created: stamp(2023, 3, 6, 13, 3, 6),
        modified: stamp(2023, 3, 6, 13, 3, 6),
        accessed: stamp(2023, 3, 6, 13, 3, 6),
        first_cluster: 5,
        valid_data_length: 13,
        data_length: 13,
        no_fat_chain: true,
    }));
    if big {
        root.extend(entry_set(&SetSpec {
            name: "big",
            attributes: 0x20,
            created: 0,
            modified: 0,
            accessed: 0,
            first_cluster: 9,
            valid_data_length: 1000,
            data_length: 1000,
            no_fat_chain: false,
        }));
        root.extend(entry_set(&SetSpec {
            name: "empty",
            attributes: 0x20,
            created: 0,
            modified: 0,
            accessed: 0,
            first_cluster: 0,
            valid_data_length: 0,
            data_length: 0,
            no_fat_chain: false,
        }));
        let content = big_content();
        let at9 = cluster_offset(9);
        img[at9..at9 + 512].copy_from_slice(&content[..512]);
        let at8 = cluster_offset(8);
        img[at8..at8 + 488].copy_from_slice(&content[512..]);
    }
    let at = cluster_offset(2);
    img[at..at + root.len()].copy_from_slice(&root);

    let dir = entry_set(&SetSpec {
        name: "file2",
        attributes: 0x20,
        created: stamp(2023, 3, 6, 13, 3, 18),
        modified: stamp(2023, 3, 6, 13, 3, 18),
        accessed: stamp(2023, 3, 6, 13, 3, 18),
        first_cluster: 7,
        valid_data_length: 13,
        data_length: 13,
        no_fat_chain: false,
    });
    let at = cluster_offset(6);
    img[at..at + dir.len()].copy_from_slice(&dir);

    let at = cluster_offset(5);
    img[at..at + 13].copy_from_slice(b"Test file 1.\n");
    let at = cluster_offset(7);
    img[at..at + 13].copy_from_slice(b"Test file 2.\n");
    img
}

fn open(img: Vec<u8>) -> Root<MemoryPartition> {
    match Root::open(MemoryPartition::new(img)) {
        Ok(r) => r,
        Err(_) => panic!("cannot open the root directory"),
    }
}

fn file_named(root: Root<MemoryPartition>, name: &str) -> File<MemoryPartition> {
    for item in root.into_iter() {
        if let Item::File(f) = item {
            if f.name() == name {
                return f;
            }
        }
    }
    panic!("no file {}", name)
}

fn read_all(f: &mut File<MemoryPartition>) -> Vec<u8> {
    match f.read_to_end() {
        Ok(v) => v,
        Err(_) => panic!("cannot read"),
    }
}

fn check_timestamp(
    ts: &Timestamp,
    day: u8,
    month: u8,
    year: u16,
    hour: u8,
    minute: u8,
    second: u8,
    utc_offset: i8,
) {
    assert_eq!(day, ts.date().day);
    assert_eq!(month, ts.date().month);
    assert_eq!(year, ts.date().year);
    assert_eq!(hour, ts.time().hour);
    assert_eq!(minute, ts.time().minute);
    assert_eq!(second, ts.time().second);
    assert_eq!(utc_offset, ts.utc_offset());
}

#[test]
fn read_image() {
    let root = open(build_image(false));

    assert_eq!(Some("Test image"), root.volume_label());

    let items = Vec::from_iter(root.into_iter());

    assert_eq!(2, items.len());

    for i in items {
        match i {
            Item::Directory(d) => {
                assert_eq!("dir1", d.name());

                check_timestamp(d.timestamps().created(), 6, 3, 2023, 13, 2, 32, 0);
                check_timestamp(d.timestamps().modified(), 6, 3, 2023, 13, 3, 18, 0);
                check_timestamp(d.timestamps().accessed(), 6, 3, 2023, 13, 2, 32, 0);

                let mut items = match d.open() {
                    Ok(v) => v,
                    Err(_) => panic!("cannot open dir1"),
                };

                assert_eq!(1, items.len());

                match items.remove(0) {
                    Item::Directory(_) => panic!("unexpected item in dir1"),
                    Item::File(mut f) => {
                        assert_eq!("file2", f.name());
                        assert_eq!(13, f.len());

                        let c = String::from_utf8(read_all(&mut f)).expect("cannot read file2");

                        assert_eq!("Test file 2.\n", c);

                        check_timestamp(f.timestamps().created(), 6, 3, 2023, 13, 3, 18, 0);
                        check_timestamp(f.timestamps().modified(), 6, 3, 2023, 13, 3, 18, 0);
                        check_timestamp(f.timestamps().accessed(), 6, 3, 2023, 13, 3, 18, 0);
                    }
                };
            }
            Item::File(mut f) => {
                assert_eq!("file1", f.name());
                assert_eq!(13, f.len());

                let c = String::from_utf8(read_all(&mut f)).expect("cannot read file1");

                assert_eq!("Test file 1.\n", c);

                check_timestamp(f.timestamps().created(), 6, 3, 2023, 13, 3, 6, 0);
                check_timestamp(f.timestamps().modified(), 6, 3, 2023, 13, 3, 6, 0);
                check_timestamp(f.timestamps().accessed(), 6, 3, 2023, 13, 3, 6, 0);
            }
        }
    }
}

#[test]
fn zero_image_is_not_exfat() {
    let r = Root::open(MemoryPartition::new(vec![0u8; 512]));
    assert!(matches!(r, Err(RootError::NotExFat)));
}

#[test]
fn short_image_fails_to_read_boot() {
    let r = Root::open(MemoryPartition::new(vec![0u8; 100]));
    assert!(matches!(r, Err(RootError::ReadMainBootFailed(MemoryError::UnexpectedEop))));
}

#[test]
fn boot_geometry_errors() {
    let mut img = build_image(false);
    img[108] = 8;
    assert!(matches!(
        Root::open(MemoryPartition::new(img)),
        Err(RootError::InvalidBytesPerSectorShift)
    ));

    let mut img = build_image(false);
    img[108] = 12;
    img[109] = 14;
    assert!(matches!(
        Root::open(MemoryPartition::new(img)),
        Err(RootError::InvalidSectorsPerClusterShift)
    ));

    let mut img = build_image(false);
    img[110] = 3;
    assert!(matches!(
        Root::open(MemoryPartition::new(img)),
        Err(RootError::InvalidNumberOfFats)
    ));

    // The second FAT is active but there is only one.
    let mut img = build_image(false);
    img[106] = 1;
    assert!(matches!(
        Root::open(MemoryPartition::new(img)),
        Err(RootError::InvalidNumberOfFats)
    ));
}

#[test]
fn boot_params_are_decoded() {
    let img = build_image(false);
    let p = match Params::from_boot::<MemoryError>(&img[..512]) {
        Ok(p) => p,
        Err(_) => panic!("cannot parse the boot sector"),
    };
    assert_eq!(1, p.fat_offset);
    assert_eq!(1, p.fat_length);
    assert_eq!(2, p.cluster_heap_offset);
    assert_eq!(8, p.cluster_count);
    assert_eq!(2, p.first_cluster_of_root_directory);
    assert_eq!(512, p.bytes_per_sector);
    assert_eq!(1, p.sectors_per_cluster);
    assert_eq!(1, p.number_of_fats);
    assert_eq!(512, p.cluster_size());
    assert_eq!(Some(1024), p.cluster_offset(2));
    assert_eq!(Some(1024 + 7 * 512), p.cluster_offset(9));
    assert_eq!(None, p.cluster_offset(10));
    assert_eq!(None, p.cluster_offset(1));
}

#[test]
fn volume_label_is_decoded() {
    let root = open(build_image(true));
    assert_eq!(Some("Test image"), root.volume_label());
    assert_eq!(4, root.into_iter().len());
}

#[test]
fn chains_stay_in_the_heap() {
    let exfat = match ExFat::open(MemoryPartition::new(build_image(true))) {
        Ok(v) => v,
        Err(_) => panic!("cannot open"),
    };
    assert_eq!(vec![9, 8], exfat.fat().get_cluster_chain(9));
    assert_eq!(vec![2], exfat.fat().get_cluster_chain(2));
    assert!(exfat.fat().get_cluster_chain(0).is_empty());
    assert!(exfat.fat().get_cluster_chain(10).is_empty());

    // A cycle ends after one entry per table entry.
    let mut img = build_image(true);
    put_u32(&mut img, 512 + 4 * 8, 9);
    let exfat = match ExFat::open(MemoryPartition::new(img)) {
        Ok(v) => v,
        Err(_) => panic!("cannot open"),
    };
    let chain = exfat.fat().get_cluster_chain(9);
    assert_eq!(10, chain.len());
    for c in chain {
        assert!(2 <= c && c <= 9);
    }
}

#[test]
fn clusters_reader_rejects_bad_allocations() {
    let exfat = match ExFat::open(MemoryPartition::new(build_image(true))) {
        Ok(v) => Arc::new(v),
        Err(_) => panic!("cannot open"),
    };
    assert!(matches!(
        ClustersReader::new(exfat.clone(), 1, Some(10), Some(false)),
        Err(ClustersNewError::InvalidFirstCluster)
    ));
    assert!(matches!(
        ClustersReader::new(exfat.clone(), 5, Some(0), Some(true)),
        Err(ClustersNewError::InvalidDataLength)
    ));
    assert!(matches!(
        ClustersReader::new(exfat.clone(), 5, None, Some(true)),
        Err(ClustersNewError::InvalidDataLength)
    ));
    assert!(matches!(
        ClustersReader::new(exfat.clone(), 9, Some(1025), Some(false)),
        Err(ClustersNewError::InvalidDataLength)
    ));
    assert!(matches!(
        ClustersReader::new(exfat.clone(), 100, None, None),
        Err(ClustersNewError::InvalidFirstCluster)
    ));
    let r = match ClustersReader::new(exfat.clone(), 9, None, None) {
        Ok(r) => r,
        Err(_) => panic!("cannot create a reader"),
    };
    assert_eq!(1024, r.data_length());
    assert_eq!(0, r.stream_position());
    assert_eq!(9, r.cluster());
}

#[test]
fn clusters_reader_reads_across_clusters() {
    let exfat = match ExFat::open(MemoryPartition::new(build_image(true))) {
        Ok(v) => Arc::new(v),
        Err(_) => panic!("cannot open"),
    };
    let mut r = match ClustersReader::new(exfat, 9, Some(1000), Some(false)) {
        Ok(r) => r,
        Err(_) => panic!("cannot create a reader"),
    };
    let content = big_content();
    let first = r.read(2000).ok().unwrap();
    assert_eq!(&content[..512], &first[..]);
    assert_eq!(8, r.cluster());
    let second = r.read(2000).ok().unwrap();
    assert_eq!(&content[512..], &second[..]);
    assert!(r.read(10).ok().unwrap().is_empty());
    assert!(r.seek(990));
    assert!(!r.seek(1001));
    assert_eq!(990, r.stream_position());
    assert_eq!(&content[990..995], &r.read_exact(5).ok().unwrap()[..]);
    assert!(r.read_exact(6).is_err());
    r.rewind();
    assert_eq!(0, r.stream_position());
}

#[test]
fn read_loop_total_equals_len() {
    let mut f = file_named(open(build_image(true)), "big");
    assert_eq!(1000, f.len());
    let mut total = 0usize;
    loop {
        let chunk = f.read(100).ok().unwrap();
        if chunk.is_empty() {
            break;
        }
        total += chunk.len();
    }
    assert_eq!(1000, total);
}

#[test]
fn last_partial_cluster_then_eof() {
    let mut f = file_named(open(build_image(true)), "big");
    assert_eq!(Ok(512), f.seek(SeekFrom::Start(512)));
    assert_eq!(1000 % 512, f.read(4096).ok().unwrap().len());
    assert!(f.read(4096).ok().unwrap().is_empty());
}

#[test]
fn seek_ends_and_current() {
    let mut f = file_named(open(build_image(true)), "big");
    assert_eq!(Ok(0), f.seek(SeekFrom::Start(0)));
    assert_eq!(Ok(1000), f.seek(SeekFrom::End(0)));
    assert_eq!(Ok(1000), f.seek(SeekFrom::Current(0)));
    assert_eq!(Ok(1000), f.seek(SeekFrom::Current(0)));
    assert_eq!(Ok(900), f.seek(SeekFrom::End(-100)));
    assert_eq!(Ok(850), f.seek(SeekFrom::Current(-50)));
    assert_eq!(Ok(1000), f.seek(SeekFrom::Current(500)));
    assert_eq!(Ok(1000), f.seek(SeekFrom::Current(i64::MAX)));
    assert_eq!(Err(SeekError::InvalidInput), f.seek(SeekFrom::End(-1001)));
    assert_eq!(1000, f.stream_position());
    assert_eq!(Ok(0), f.seek(SeekFrom::Start(0)));
    assert_eq!(Err(SeekError::InvalidInput), f.seek(SeekFrom::Current(-1)));
    assert_eq!(Err(SeekError::InvalidInput), f.seek(SeekFrom::Current(i64::MIN)));
    assert_eq!(0, f.stream_position());
}

#[test]
fn seek_start_sets_position() {
    let mut f = file_named(open(build_image(true)), "big");
    assert_eq!(Ok(300), f.seek(SeekFrom::Start(300)));
    assert_eq!(300, f.stream_position());
    assert_eq!(Ok(1000), f.seek(SeekFrom::Start(5000)));
    assert_eq!(1000, f.stream_position());
}

#[test]
fn rewind_is_seek_to_start() {
    let mut a = file_named(open(build_image(true)), "big");
    let mut b = file_named(open(build_image(true)), "big");
    assert_eq!(Ok(700), a.seek(SeekFrom::Start(700)));
    assert_eq!(Ok(700), b.seek(SeekFrom::Start(700)));
    a.rewind();
    assert_eq!(Ok(0), b.seek(SeekFrom::Start(0)));
    assert_eq!(a.stream_position(), b.stream_position());
    assert_eq!(read_all(&mut a), read_all(&mut b));
}

#[test]
fn seek_then_read_matches_whole_file() {
    let mut f = file_named(open(build_image(true)), "big");
    let whole = read_all(&mut f);
    assert_eq!(big_content(), whole);
    for x in [0u64, 1, 100, 511, 512, 513, 999, 1000] {
        assert_eq!(Ok(x), f.seek(SeekFrom::Start(x)));
        let got = f.read(64).ok().unwrap();
        let x = x as usize;
        assert_eq!(&whole[x..x + got.len()], &got[..]);
        assert!(x == 1000 || !got.is_empty());
    }
}

#[test]
fn chunked_reads_join_to_whole_file() {
    let mut f = file_named(open(build_image(true)), "big");
    let whole = read_all(&mut f);
    for size in [1usize, 7, 100, 511, 512, 4096] {
        f.rewind();
        let mut joined: Vec<u8> = Vec::new();
        loop {
            let chunk = f.read(size).ok().unwrap();
            if chunk.is_empty() {
                break;
            }
            joined.extend_from_slice(&chunk);
        }
        assert_eq!(whole, joined);
    }
}

#[test]
fn empty_file_reads_nothing() {
    let mut f = file_named(open(build_image(true)), "empty");
    assert!(f.is_empty());
    assert_eq!(0, f.len());
    assert!(f.read(10).ok().unwrap().is_empty());
    assert_eq!(Ok(0), f.seek(SeekFrom::Start(10)));
    assert_eq!(Ok(0), f.seek(SeekFrom::End(-5)));
    assert_eq!(0, f.stream_position());
}

#[test]
fn listing_is_deterministic() {
    let img = build_image(true);
    let names = |root: Root<MemoryPartition>| -> Vec<(String, u64, Vec<u8>)> {
        let mut out = Vec::new();
        for item in root.into_iter() {
            match item {
                Item::File(mut f) => {
                    let c = read_all(&mut f);
                    out.push((f.name().to_string(), f.len(), c));
                }
                Item::Directory(d) => out.push((d.name().to_string(), 0, Vec::new())),
            }
        }
        out
    };
    let a = names(open(img.clone()));
    let b = names(open(img));
    assert_eq!(a, b);
    assert_eq!(4, a.len());
}

#[test]
fn bad_checksum_is_rejected() {
    let mut img = build_image(false);
    // A byte of the name of "dir1".
    let at = cluster_offset(2) + 3 * 32 + 64 + 2;
    img[at] ^= 1;
    assert!(matches!(
        Root::open(MemoryPartition::new(img)),
        Err(RootError::LoadFileEntryFailed(FileEntryError::BadChecksum))
    ));
}

#[test]
fn missing_tables_are_rejected() {
    let mut img = build_image(false);
    img[cluster_offset(2) + 2 * 32] = 0x84;
    assert!(matches!(
        Root::open(MemoryPartition::new(img)),
        Err(RootError::UnknownEntry(2, 2))
    ));

    let mut img = build_image(false);
    img[cluster_offset(2) + 32] = 0x82;
    assert!(matches!(Root::open(MemoryPartition::new(img)), Err(RootError::MultipleUpcaseTable)));

    let mut img = build_image(false);
    img[cluster_offset(2) + 32 + 1] = 1;
    assert!(matches!(
        Root::open(MemoryPartition::new(img)),
        Err(RootError::WrongAllocationBitmap)
    ));

    let mut img = build_image(false);
    img[cluster_offset(2) + 2 * 32] = 0x81;
    assert!(matches!(
        Root::open(MemoryPartition::new(img)),
        Err(RootError::TooManyAllocationBitmap)
    ));

    let mut img = build_image(false);
    img[cluster_offset(2) + 32] = 0x83;
    assert!(matches!(Root::open(MemoryPartition::new(img)), Err(RootError::MultipleVolumeLabel)));

    let mut img = build_image(false);
    img[cluster_offset(2) + 1] = 12;
    assert!(matches!(Root::open(MemoryPartition::new(img)), Err(RootError::InvalidVolumeLabel)));

    let mut img = build_image(false);
    img[cluster_offset(2) + 32] = 0x01;
    assert!(matches!(Root::open(MemoryPartition::new(img)), Err(RootError::NoAllocationBitmap)));

    let mut img = build_image(false);
    img[cluster_offset(2) + 2 * 32] = 0x01;
    assert!(matches!(Root::open(MemoryPartition::new(img)), Err(RootError::NoUpcaseTable)));

    let mut img = build_image(false);
    img[cluster_offset(2) + 2 * 32] = 0xC0;
    assert!(matches!(
        Root::open(MemoryPartition::new(img)),
        Err(RootError::NotPrimaryEntry(2, 2))
    ));
}

#[test]
fn timestamp_fields_are_decoded() {
    let t = Timestamp::new(stamp(2099, 12, 31, 23, 59, 58), 199, -4);
    assert_eq!(31, t.date().day);
    assert_eq!(12, t.date().month);
    assert_eq!(2099, t.date().year);
    assert_eq!(23, t.time().hour);
    assert_eq!(59, t.time().minute);
    assert_eq!(58, t.time().second);
    assert_eq!(-4, t.utc_offset());
    let t = Timestamp::new(0, 0, 0);
    assert_eq!(1980, t.date().year);
    assert_eq!(0, t.time().second);
}

#[test]
fn utc_offsets_are_decoded() {
    assert_eq!(0, decode_utc_offset(0x00));
    assert_eq!(0, decode_utc_offset(0x04));
    assert_eq!(0, decode_utc_offset(0x80));
    assert_eq!(4, decode_utc_offset(0x84));
    assert_eq!(-1, decode_utc_offset(0xFF));
    assert_eq!(-64, decode_utc_offset(0xC0));
}

#[test]
fn checksum_rotates_and_adds() {
    assert_eq!(16390, entry_set_checksum(&[1, 2, 3, 4, 5]));
    assert_eq!(0, entry_set_checksum(&[]));
    let set = entry_set(&SetSpec {
        name: "a much longer name than fifteen units",
        attributes: 0,
        created: 0,
        modified: 0,
        accessed: 0,
        first_cluster: 0,
        valid_data_length: 0,
        data_length: 0,
        no_fat_chain: false,
    });
    assert_eq!(u16::from_le_bytes([set[2], set[3]]), entry_set_checksum(&set));
}

#[test]
fn attributes_and_entry_types() {
    let a = FileAttributes(0x37);
    assert!(a.is_read_only());
    assert!(a.is_hidden());
    assert!(a.is_system());
    assert!(a.is_directory());
    assert!(a.is_archive());
    let a = FileAttributes(0x08);
    assert!(!a.is_read_only() && !a.is_hidden() && !a.is_system());
    assert!(!a.is_directory() && !a.is_archive());

    let t = EntryType(0x85);
    assert!(t.is_regular());
    assert_eq!(0, t.type_category());
    assert_eq!(0, t.type_importance());
    assert_eq!(5, t.type_code());
    let t = EntryType(0xC1);
    assert_eq!(1, t.type_category());
    assert_eq!(1, t.type_code());
    let t = EntryType(0x05);
    assert!(!t.is_regular());
    assert_eq!(1, EntryType(0xA0).type_importance());
}

/// Offset of entry set `k` of the root directory of `build_image`: after
/// the label, the bitmap and the up-case table; "dir1" takes three records.
fn root_set(k: usize) -> usize {
    cluster_offset(2) + 32 * (3 + 3 * k)
}

/// Recomputes the checksum of the entry set at `at` with `records` records.
fn reseal(img: &mut [u8], at: usize, records: usize) {
    let c = checksum(&img[at..at + 32 * records]);
    put_u16(img, at + 2, c);
}

#[test]
fn borrowed_partition_opens() {
    let part = MemoryPartition::new(build_image(false));
    let root = match Root::open(&part) {
        Ok(r) => r,
        Err(_) => panic!("cannot open"),
    };
    assert_eq!(Some("Test image"), root.volume_label());
    let root = match Root::open(Arc::new(part)) {
        Ok(r) => r,
        Err(_) => panic!("cannot open"),
    };
    assert_eq!(2, root.into_iter().len());
}

#[test]
fn fat_and_root_failures() {
    // The image ends within the FAT.
    let img = build_image(false)[..520].to_vec();
    assert!(matches!(
        Root::open(MemoryPartition::new(img)),
        Err(RootError::ReadFatRegionFailed(LoadError::ReadFailed(512, MemoryError::UnexpectedEop)))
    ));

    // The root directory starts at cluster 1.
    let mut img = build_image(false);
    put_u32(&mut img, 96, 1);
    assert!(matches!(
        Root::open(MemoryPartition::new(img)),
        Err(RootError::CreateClustersReaderFailed(ClustersNewError::InvalidFirstCluster))
    ));

    // The image ends before the root directory.
    let img = build_image(false)[..1024].to_vec();
    assert!(matches!(
        Root::open(MemoryPartition::new(img)),
        Err(RootError::ReadEntryFailed(ReadError::ReadFailed(1024, MemoryError::UnexpectedEop)))
    ));
}

#[test]
fn malformed_entry_sets_are_rejected() {
    // The Stream Extension of "dir1" is a File Name record.
    let mut img = build_image(false);
    let at = root_set(0);
    img[at + 32] = 0xC1;
    reseal(&mut img, at, 3);
    assert!(matches!(
        Root::open(MemoryPartition::new(img)),
        Err(RootError::LoadFileEntryFailed(FileEntryError::MalformedEntrySet(4, 2)))
    ));

    // "dir1" claims no secondary records.
    let mut img = build_image(false);
    img[root_set(0) + 1] = 0;
    assert!(matches!(
        Root::open(MemoryPartition::new(img)),
        Err(RootError::LoadFileEntryFailed(FileEntryError::MalformedEntrySet(3, 2)))
    ));

    // A name longer than its File Name records.
    let mut img = build_image(false);
    let at = root_set(0);
    img[at + 35] = 16;
    reseal(&mut img, at, 3);
    assert!(matches!(
        Root::open(MemoryPartition::new(img)),
        Err(RootError::LoadFileEntryFailed(FileEntryError::InvalidName))
    ));

    // A valid data length past the data length.
    let mut img = build_image(false);
    let at = root_set(1);
    put_u64(&mut img, at + 40, 14);
    reseal(&mut img, at, 3);
    assert!(matches!(
        Root::open(MemoryPartition::new(img)),
        Err(RootError::LoadFileEntryFailed(FileEntryError::MalformedEntrySet(7, 2)))
    ));

    // A contiguous file without data length.
    let mut img = build_image(false);
    let at = root_set(1);
    put_u64(&mut img, at + 40, 0);
    put_u64(&mut img, at + 56, 0);
    reseal(&mut img, at, 3);
    assert!(matches!(
        Root::open(MemoryPartition::new(img)),
        Err(RootError::CreateFileObjectFailed(
            6,
            2,
            FileNewError::CreateClustersReaderFailed(5, 0, ClustersNewError::InvalidDataLength)
        ))
    ));
}

#[test]
fn directory_errors() {
    let dir = |img: Vec<u8>| {
        for item in open(img).into_iter() {
            if let Item::Directory(d) = item {
                return d.open();
            }
        }
        panic!("no directory")
    };

    let mut img = build_image(false);
    img[cluster_offset(6)] = 0xC0;
    assert!(matches!(dir(img), Err(DirectoryError::NotPrimaryEntry(0, 6))));

    let mut img = build_image(false);
    img[cluster_offset(6)] = 0x83;
    assert!(matches!(dir(img), Err(DirectoryError::NotFileEntry(0, 6))));

    let mut img = build_image(false);
    img[cluster_offset(6) + 1] = 9;
    assert!(matches!(
        dir(img),
        Err(DirectoryError::LoadFileEntryFailed(FileEntryError::MalformedEntrySet(3, 6)))
    ));

    // Every record of the directory is in use: its stream ends first.
    let mut img = build_image(false);
    for k in 3..16 {
        img[cluster_offset(6) + 32 * k] = 0x85;
    }
    img[cluster_offset(6) + 32 * 2] = 0x85;
    let r = dir(img);
    assert!(r.is_err());
}

#[test]
fn cluster_outside_heap_is_unavailable() {
    let exfat = match ExFat::open(MemoryPartition::new(build_image(true))) {
        Ok(v) => Arc::new(v),
        Err(_) => panic!("cannot open"),
    };
    let mut r = match ClustersReader::new(exfat, 9, Some(1024), Some(true)) {
        Ok(r) => r,
        Err(_) => panic!("cannot create a reader"),
    };
    assert_eq!(512, r.read(4096).ok().unwrap().len());
    assert!(matches!(r.read(4096), Err(ReadError::ClusterUnavailable(10))));
    assert_eq!(512, r.stream_position());
}

#[test]
fn two_fats_need_two_bitmaps_in_order() {
    let mut img = build_image(false);
    img[110] = 2;
    assert!(matches!(Root::open(MemoryPartition::new(img)), Err(RootError::NoAllocationBitmap)));

    // The label becomes the bitmap of the second FAT, ahead of the first.
    let mut img = build_image(false);
    img[110] = 2;
    let at = cluster_offset(2);
    img[at..at + 32].fill(0);
    img[at] = 0x81;
    img[at + 1] = 1;
    assert!(matches!(
        Root::open(MemoryPartition::new(img.clone())),
        Err(RootError::WrongAllocationBitmap)
    ));

    // In order, both bitmaps are accepted; there is no label any more.
    img[at + 1] = 0;
    img[at + 32 + 1] = 1;
    let root = open(img);
    assert_eq!(None, root.volume_label());
    assert_eq!(2, root.into_iter().len());
}

#[test]
fn file_without_clusters_must_have_no_data() {
    // "file1" loses its first cluster but keeps its length.
    let mut img = build_image(false);
    let at = root_set(1);
    put_u32(&mut img, at + 52, 0);
    reseal(&mut img, at, 3);
    assert!(matches!(
        Root::open(MemoryPartition::new(img)),
        Err(RootError::CreateFileObjectFailed(
            6,
            2,
            FileNewError::CreateClustersReaderFailed(0, 13, ClustersNewError::InvalidFirstCluster)
        ))
    ));
}

#[test]
fn read_exact_past_the_end_stops_at_the_end() {
    let exfat = match ExFat::open(MemoryPartition::new(build_image(true))) {
        Ok(v) => Arc::new(v),
        Err(_) => panic!("cannot open"),
    };
    let mut r = match ClustersReader::new(exfat, 9, Some(1000), Some(false)) {
        Ok(r) => r,
        Err(_) => panic!("cannot create a reader"),
    };
    assert!(r.read_exact(0).ok().unwrap().is_empty());
    assert!(r.seek(998));
    assert!(matches!(r.read_exact(3), Err(ReadError::UnexpectedEof)));
    assert_eq!(1000, r.stream_position());
    assert!(r.seek(998));
    assert_eq!(&big_content()[998..], &r.read_exact(2).ok().unwrap()[..]);
    assert!(r.read_to_end().ok().unwrap().is_empty());
}

#[test]
fn memory_partition_reads() {
    let p = MemoryPartition::new(vec![1, 2, 3, 4, 5]);
    assert_eq!(vec![2, 3], p.read(1, 2).ok().unwrap());
    assert_eq!(vec![4, 5], p.read(3, 10).ok().unwrap());
    assert!(p.read(5, 10).ok().unwrap().is_empty());
    assert!(read_exact(&p, 3, 0).ok().unwrap().is_empty());
    assert_eq!(vec![3, 4, 5], read_exact(&p, 2, 3).ok().unwrap());
    assert!(matches!(read_exact(&p, 3, 3), Err(MemoryError::UnexpectedEop)));
    assert!(matches!(read_exact(&p, u64::MAX, 2), Err(MemoryError::UnexpectedEop)));
}
