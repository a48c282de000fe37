use d88fileio::disk::Disk;
use d88fileio::error::D88Error;
use d88fileio::fileio::D88FileIO;
use d88fileio::format::{D88_Header, D88_SectorHdr, HEADER_SIZE};
use d88fileio::sector::Sector;
use d88fileio::track::Track;

fn header(name: &[u8], wp: u8, dtype: u8, size: u32, table: &[u32]) -> Vec<u8> {
    let mut v = Vec::new();
    let mut n = name.to_vec();
    n.resize(17, 0);
    v.extend_from_slice(&n);
    v.extend_from_slice(&[0u8; 9]);
    v.push(wp);
    v.push(dtype);
    v.extend_from_slice(&size.to_le_bytes());
    for k in 0..164 {
        let e = if k < table.len() { table[k] } else { 0 };
        v.extend_from_slice(&e.to_le_bytes());
    }
    v
}

fn sector(sec: u8, count: u16, status: u8, payload: &[u8]) -> Vec<u8> {
    let mut v = vec![0, 0, sec, 1];
    v.extend_from_slice(&count.to_le_bytes());
    v.push(0x00);
    v.push(0x00);
    v.push(status);
    v.extend_from_slice(&[9, 8, 7, 6, 5]);
    v.extend_from_slice(&(payload.len() as u16).to_le_bytes());
    v.extend_from_slice(payload);
    v
}

/// A header followed by one track per list of sector numbers, in that order.
fn image(tracks: &[&[u8]]) -> Vec<u8> {
    let mut body = Vec::new();
    let mut table = Vec::new();
    for t in tracks {
        table.push((HEADER_SIZE + body.len()) as u32);
        for &s in t.iter() {
            body.extend(sector(s, t.len() as u16, 0, &[s; 32]));
        }
    }
    let mut v = header(b"TEST", 0, 0, 0, &table);
    v.extend(body);
    v
}

#[test]
fn sector_footprint_is_header_plus_payload() {
    let mut img = vec![0xeeu8; 10];
    img.extend(sector(1, 1, 0, &[0x41; 100]));
    let mut s = Sector::new();
    assert_eq!(s.preset(&img, 10), Ok(116));
    assert_eq!(s.offset, 26);
    assert_eq!(s.data, vec![0x41; 100]);
    assert_eq!(s.header.reserved, [9, 8, 7, 6, 5]);

    let mut img = vec![0xeeu8; 4];
    img.extend(sector(2, 1, 0, &[]));
    let mut s = Sector::new();
    assert_eq!(s.preset(&img, 4), Ok(16));
    assert!(s.data.is_empty());
}

#[test]
fn sector_at_zero_offset_is_format_error() {
    let img = sector(1, 1, 0, &[1, 2, 3]);
    let mut s = Sector::new();
    assert_eq!(s.preset(&img, 0), Err(D88Error::FormatError));
}

#[test]
fn truncated_sector_is_io_error() {
    let mut img = vec![0u8; 8];
    img.extend(sector(1, 1, 0, &[7; 64]));
    let mut s = Sector::new();
    assert_eq!(s.preset(&img[..8 + 10], 8), Err(D88Error::IoError));
    assert_eq!(s.preset(&img[..8 + 16 + 63], 8), Err(D88Error::IoError));
    assert_eq!(s.preset(&img, 1000), Err(D88Error::IoError));
    assert_eq!(s.preset(&img, 8), Ok(80));
}

#[test]
fn sector_header_fields_decode_little_endian() {
    let bytes = [3u8, 1, 9, 2, 0x34, 0x12, 0x40, 0x10, 0xb0, 0, 0, 0, 0, 0, 0x00, 0x04];
    let h = D88_SectorHdr::from_bytes(&bytes, 0).unwrap();
    assert_eq!(h.track, 3);
    assert_eq!(h.side, 1);
    assert_eq!(h.sec, 9);
    assert_eq!(h.sec_size, 2);
    assert_eq!(h.number_of_sec, 0x1234);
    assert_eq!(h.density, 0x40);
    assert_eq!(h.deleted_mark, 0x10);
    assert_eq!(h.status, 0xb0);
    assert_eq!(h.size_of_data, 0x400);
    assert!(D88_SectorHdr::from_bytes(&bytes, 1).is_err());
}

#[test]
fn first_sector_starts_at_table_entry() {
    let mut img = header(b"X", 0, 0, 0, &[0, 0, 0, 0, 0, 0x300]);
    img.resize(0x300, 0xff);
    img.extend(sector(1, 2, 0, &[1; 16]));
    img.extend(sector(2, 2, 0, &[2; 16]));
    let mut d = Disk::new();
    assert_eq!(d.preset(&img), Ok(64));
    assert_eq!(d.track_tbl.len(), 1);
    let first = &d.track_tbl[0].sector_tbl[0];
    assert_eq!(first.offset, 0x300 + 16);
    assert_eq!(first.header.sec, 1);
    assert_eq!(d.track_tbl[0].sector_tbl[1].offset, 0x300 + 32 + 16);
}

#[test]
fn sparse_table_gives_compacted_tracks() {
    let mut img = header(b"SPARSE", 0, 0, 0, &[0, 0x2b0, 0, 0x5b0]);
    img.extend(sector(1, 1, 0, &[0x11; 0x300 - 16]));
    assert_eq!(img.len(), 0x5b0);
    img.extend(sector(1, 1, 0, &[0x22; 64]));
    let mut d = Disk::new();
    assert_eq!(d.preset(&img), Ok(0x300 + 80));
    assert_eq!(d.track_tbl.len(), 2);
    assert_eq!(d.track_tbl[0].sector_tbl[0].offset, 0x2b0 + 16);
    assert_eq!(d.track_tbl[1].sector_tbl[0].offset, 0x5b0 + 16);
}

#[test]
fn build_stops_at_first_bad_track() {
    let mut img = image(&[&[1, 2]]);
    let good = HEADER_SIZE as u32;
    let table = [good, 0, 0x7fff_0000, good];
    let h = header(b"STOP", 0, 0, 0, &table);
    img[..HEADER_SIZE].copy_from_slice(&h);
    let mut d = Disk::new();
    assert_eq!(d.preset(&img), Ok(96));
    assert_eq!(d.track_tbl.len(), 1);
}

#[test]
fn no_track_is_format_error() {
    let img = header(b"EMPTY", 0, 0, 0, &[]);
    let mut d = Disk::new();
    assert_eq!(d.preset(&img), Err(D88Error::FormatError));
    assert_eq!(d.track_tbl.len(), 0);
    let f = D88FileIO::open(img);
    assert!(!f.is_open());
}

#[test]
fn truncated_header_is_io_error_with_no_tracks() {
    let full = image(&[&[1]]);
    for cut in [0usize, 1, 100, HEADER_SIZE - 1] {
        let mut d = Disk::new();
        assert_eq!(d.preset(&full[..cut]), Err(D88Error::IoError));
        assert_eq!(d.track_tbl.len(), 0);
        assert!(matches!(D88_Header::from_bytes(&full[..cut]), Err(D88Error::IoError)));
        let f = D88FileIO::open(full[..cut].to_vec());
        assert!(!f.is_open());
        assert_eq!(f.disk.track_tbl.len(), 0);
    }
}

#[test]
fn header_fields_decode() {
    let table = [0x2b0u32, 0, 0x1234_5678];
    let img = header(b"NAME", 0x10, 0x20, 0x0001_0203, &table);
    let h = D88_Header::from_bytes(&img).unwrap();
    assert_eq!(&h.disk_name[..4], b"NAME");
    assert_eq!(h.disk_name.len(), 17);
    assert_eq!(h.reserved.len(), 9);
    assert_eq!(h.write_protect, 0x10);
    assert_eq!(h.disk_type, 0x20);
    assert_eq!(h.disk_size, 0x0001_0203);
    assert_eq!(h.track_tbl.len(), 164);
    assert_eq!(h.track_tbl[0], 0x2b0);
    assert_eq!(h.track_tbl[2], 0x1234_5678);
    assert_eq!(h.track_tbl[163], 0);
}

#[test]
fn short_track_is_format_error() {
    let mut img = vec![0u8; 0x20];
    img.extend(sector(1, 3, 0, &[1; 8]));
    img.extend(sector(2, 3, 0, &[2; 8]));
    let mut t = Track::new();
    assert_eq!(t.preset(&img, 0x20), Err(D88Error::FormatError));
    assert_eq!(t.sector_tbl.len(), 0);
    img.extend(sector(3, 3, 0, &[3; 8]));
    assert_eq!(t.preset(&img, 0x20), Ok(72));
    assert_eq!(t.number_of_sector, 3);
    assert_eq!(t.sector_tbl.len(), 3);
}

#[test]
fn track_count_comes_from_first_sector() {
    let mut img = vec![0u8; 0x10];
    img.extend(sector(1, 2, 0, &[1; 4]));
    img.extend(sector(2, 9, 0, &[2; 4]));
    img.extend(sector(3, 9, 0, &[3; 4]));
    let mut t = Track::new();
    assert_eq!(t.preset(&img, 0x10), Ok(40));
    assert_eq!(t.number_of_sector, 2);
    assert_eq!(t.sector_tbl.len(), 2);
}

#[test]
fn track_with_zero_count_reads_one_sector() {
    let mut img = vec![0u8; 0x10];
    img.extend(sector(1, 0, 0, &[1; 4]));
    let mut t = Track::new();
    assert_eq!(t.preset(&img, 0x10), Ok(20));
    assert_eq!(t.sector_tbl.len(), 1);
    assert_eq!(t.preset(&img, 0), Err(D88Error::FormatError));
}

#[test]
fn track_is_capped_at_164_sectors() {
    let mut img = vec![0u8; 0x10];
    for s in 0..200u16 {
        img.extend(sector(s as u8, 1000, 0, &[]));
    }
    let mut t = Track::new();
    assert_eq!(t.preset(&img, 0x10), Ok(164 * 16));
    assert_eq!(t.sector_tbl.len(), 164);
    assert_eq!(t.number_of_sector, 1000);
}

fn sector_numbers(t: &Track) -> Vec<u8> {
    t.sector_tbl.iter().map(|s| s.header.sec).collect()
}

fn offsets(t: &Track) -> Vec<u64> {
    t.sector_tbl.iter().map(|s| s.offset).collect()
}

#[test]
fn logical_then_physical_sort_restores_order() {
    let img = image(&[&[3, 1, 4, 1, 5, 9, 2, 6]]);
    let mut f = D88FileIO::open(img);
    let before = offsets(&f.disk.track_tbl[0]);
    f.sector_sort();
    assert_eq!(sector_numbers(&f.disk.track_tbl[0]), vec![1, 1, 2, 3, 4, 5, 6, 9]);
    f.file_offset_sort();
    assert_eq!(offsets(&f.disk.track_tbl[0]), before);
    assert_eq!(sector_numbers(&f.disk.track_tbl[0]), vec![3, 1, 4, 1, 5, 9, 2, 6]);
}

#[test]
fn sector_sort_is_stable() {
    let img = image(&[&[2, 1, 2, 1]]);
    let mut f = D88FileIO::open(img);
    let before = offsets(&f.disk.track_tbl[0]);
    f.sector_sort();
    let after = offsets(&f.disk.track_tbl[0]);
    assert_eq!(after, vec![before[1], before[3], before[0], before[2]]);
}

#[test]
fn file_offset_sort_after_decode_changes_nothing() {
    let img = image(&[&[5, 4, 3], &[1]]);
    let mut f = D88FileIO::open(img);
    let before: Vec<Vec<u64>> = f.disk.track_tbl.iter().map(offsets).collect();
    f.file_offset_sort();
    let after: Vec<Vec<u64>> = f.disk.track_tbl.iter().map(offsets).collect();
    assert_eq!(before, after);
}

#[test]
fn first_lookup_after_logical_sort_is_least_sector() {
    let img = image(&[&[7, 3, 5, 4], &[9, 8]]);
    let mut f = D88FileIO::open(img);
    f.sector_sort();
    assert_eq!(f.get_sector(0, 0, 0).unwrap().header.sec, 3);
    assert_eq!(f.get_sector(0, 0, 3).unwrap().header.sec, 7);
    assert_eq!(f.get_sector(0, 1, 0).unwrap().header.sec, 8);
    assert!(f.get_sector(1, 0, 0).is_err());
}

#[test]
fn status_labels() {
    let mut img = vec![0u8; 4];
    img.extend(sector(1, 1, 0xa0, &[]));
    img.extend(sector(1, 1, 0x55, &[]));
    let mut s = Sector::new();
    s.preset(&img, 4).unwrap();
    assert_eq!(s.get_status(), "Status(ID CRC Err)");
    s.preset(&img, 20).unwrap();
    assert_eq!(s.get_status(), "Status(??)");
    for (b, l) in [(0x00u8, "OK"), (0x10, "DELETED"), (0xb0, "Data CRC Err"), (0xe0, "No Addr Mark"), (0xf0, "No Data Mark")] {
        s.header.status = b;
        assert_eq!(s.get_status(), format!("Status({})", l));
    }
}

#[test]
fn sector_labels() {
    let mut s = Sector::new();
    s.header.track = 39;
    s.header.side = 1;
    s.header.sec = 16;
    s.header.sec_size = 1;
    s.header.number_of_sec = 16;
    s.header.size_of_data = 256;
    assert_eq!(s.get_track(), "Track(39)");
    assert_eq!(s.get_side(), "Side(1)");
    assert_eq!(s.get_sector(), "Sector(16)");
    assert_eq!(s.get_sector_size(), "Size(256 byte/sec)");
    assert_eq!(s.get_num_of_sector(), "NumOfSector(16 sec/track)");
    assert_eq!(s.get_data_size(), "DataSize(256 byte), ");
    assert_eq!(s.get_density(), "Density(D)");
    assert_eq!(s.get_mark(), "Mark(NORMAL)");
    s.header.density = 0x40;
    assert_eq!(s.get_density(), "Density(S)");
    s.header.density = 0x01;
    assert_eq!(s.get_density(), "Density(HD)");
    s.header.density = 0x02;
    assert_eq!(s.get_density(), "Density(??)");
    s.header.deleted_mark = 0x10;
    assert_eq!(s.get_mark(), "Mark(DELETED)");
    s.header.deleted_mark = 0x11;
    assert_eq!(s.get_mark(), "Mark(??)");
    s.header.track = 0;
    assert_eq!(s.get_track(), "Track(0)");
}

#[test]
fn nominal_size_and_mismatch() {
    let mut s = Sector::new();
    s.header.sec_size = 0;
    assert_eq!(s.nominal_size(), Some(128));
    s.header.sec_size = 3;
    assert_eq!(s.nominal_size(), Some(1024));
    s.header.size_of_data = 1024;
    assert!(!s.size_mismatch());
    s.header.size_of_data = 1000;
    assert!(s.size_mismatch());
    s.header.sec_size = 56;
    assert_eq!(s.nominal_size(), Some(128u64 << 56));
    s.header.sec_size = 57;
    assert_eq!(s.nominal_size(), None);
    assert!(s.size_mismatch());
    assert_eq!(s.get_sector_size(), "Size(?? byte/sec)");
}

#[test]
fn disk_labels() {
    let mut d = Disk::new();
    assert_eq!(d.get_disk_name(), "Name()");
    d.header.disk_name = b"ABC\0garbage\0\0\0\0\0\0".to_vec();
    assert_eq!(d.get_disk_name(), "Name(ABC)");
    d.header.disk_name = vec![0x41, 0xff, 0x42, 0, 0, 0, 0, 0, 0, 0, 0, 0, 0, 0, 0, 0, 0];
    assert_eq!(d.get_disk_name(), "Name(A\u{fffd}B)");
    d.header.write_protect = 0x10;
    assert_eq!(d.get_disk_write_protect(), "(Protected)");
    d.header.write_protect = 0x00;
    assert_eq!(d.get_disk_write_protect(), "(No Protected)");
    d.header.write_protect = 0x01;
    assert_eq!(d.get_disk_write_protect(), "(!! Illegal !!)");
    for (b, l) in [(0x00u8, "2D"), (0x10, "2DD"), (0x20, "2HD"), (0x30, "??")] {
        d.header.disk_type = b;
        assert_eq!(d.get_disk_type(), format!("Type({} Disk)", l));
    }
    d.header.disk_size = 4294967295;
    assert_eq!(d.get_disk_size(), "DiskSize(4294967295 byte)");
}
