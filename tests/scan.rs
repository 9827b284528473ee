use std::io::Write;

use insert_size::container::{decode_record, parse_header, BamReader, DecodeError};
use insert_size::picture::{ConfigError, PicFormat};
use insert_size::record::Record;
use insert_size::stats::{mean_hundredths, scan, scan_compressed, Aggregates};

fn record_body(ref_id: i32, flag: u16, mate_ref_id: i32, tlen: i32, l_seq: u32, aux: usize) -> Vec<u8> {
    let name = b"read1\0";
    let n_cigar: u16 = 2;
    let mut b = Vec::new();
    b.extend_from_slice(&ref_id.to_le_bytes());
    b.extend_from_slice(&1234i32.to_le_bytes());
    b.push(name.len() as u8);
    b.push(60);
    b.extend_from_slice(&4680u16.to_le_bytes());
    b.extend_from_slice(&n_cigar.to_le_bytes());
    b.extend_from_slice(&flag.to_le_bytes());
    b.extend_from_slice(&l_seq.to_le_bytes());
    b.extend_from_slice(&mate_ref_id.to_le_bytes());
    b.extend_from_slice(&5678i32.to_le_bytes());
    b.extend_from_slice(&tlen.to_le_bytes());
    b.extend_from_slice(name);
    for _ in 0..n_cigar {
        b.extend_from_slice(&0x0000_0320u32.to_le_bytes());
    }
    b.extend(std::iter::repeat(0x11u8).take(((l_seq + 1) / 2) as usize));
    b.extend(std::iter::repeat(30u8).take(l_seq as usize));
    b.extend(std::iter::repeat(0xabu8).take(aux));
    b
}

fn record_bytes(ref_id: i32, flag: u16, mate_ref_id: i32, tlen: i32) -> Vec<u8> {
    let body = record_body(ref_id, flag, mate_ref_id, tlen, 5, 7);
    let mut b = (body.len() as u32).to_le_bytes().to_vec();
    b.extend(body);
    b
}

fn header_bytes(text: &[u8], refs: &[&[u8]]) -> Vec<u8> {
    let mut b = vec![b'B', b'A', b'M', 1];
    b.extend_from_slice(&(text.len() as i32).to_le_bytes());
    b.extend_from_slice(text);
    b.extend_from_slice(&(refs.len() as u32).to_le_bytes());
    for name in refs {
        b.extend_from_slice(&(name.len() as u32).to_le_bytes());
        b.extend_from_slice(name);
        b.extend_from_slice(&1_000_000u32.to_le_bytes());
    }
    b
}

fn gzip(data: &[u8]) -> Vec<u8> {
    let mut enc = flate2::write::GzEncoder::new(Vec::new(), flate2::Compression::default());
    enc.write_all(data).unwrap();
    enc.finish().unwrap()
}

fn scan_plain(data: Vec<u8>, upper: usize) -> Result<Aggregates, DecodeError> {
    let mut reader = BamReader::from_decompressed(data)?;
    scan(&mut reader, upper)
}

fn three_pairs() -> Vec<u8> {
    let mut data = header_bytes(b"", &[b"chr1\0"]);
    for t in [100, -200, 300] {
        data.extend(record_bytes(0, 0x43, 0, t));
    }
    data
}

#[test]
fn three_pairs_round_trip() {
    let agg = scan_compressed(&gzip(&three_pairs()), 500).unwrap();
    assert_eq!(agg.all_count, 3);
    assert_eq!(agg.count, 3);
    assert_eq!(agg.all_insert_sum, 600);
    assert_eq!(agg.insert_sum, 600);
    assert_eq!(agg.histogram.len(), 501);
    assert_eq!(agg.histogram[100], 1);
    assert_eq!(agg.histogram[200], 1);
    assert_eq!(agg.histogram[300], 1);
    assert_eq!(agg.histogram.iter().sum::<u64>(), 3);
    let s = agg.finalize().unwrap();
    assert_eq!(s.all_insert_sum as f64 / s.all_count as f64, 200.0);
    assert_eq!(s.insert_sum as f64 / s.count as f64, 200.0);
    assert_eq!((s.q1, s.q2, s.q3), (100, 200, 300));
    assert_eq!(s.sq_insert_sum, 100 * 100 + 200 * 200 + 300 * 300);
    assert_eq!(s.height_max, 1);
}

#[test]
fn multi_member_stream_is_one_stream() {
    let data = three_pairs();
    let (a, b) = data.split_at(40);
    let mut gz = gzip(a);
    gz.extend(gzip(b));
    let agg = scan_compressed(&gz, 500).unwrap();
    assert_eq!(agg.count, 3);
    assert_eq!(agg.insert_sum, 600);
}

#[test]
fn not_gzip_is_refused() {
    let r = scan_compressed(&three_pairs(), 500);
    assert!(matches!(r, Err(DecodeError::BadCompression)));
}

#[test]
fn beyond_upper_counts_only_in_all() {
    let mut data = header_bytes(b"@HD\tVN:1.6\n", &[b"chr1\0", b"chr2\0"]);
    data.extend(record_bytes(1, 0x43, 1, 9999));
    data.extend(record_bytes(1, 0x43, 1, -250));
    let agg = scan_plain(data, 500).unwrap();
    assert_eq!(agg.all_count, 2);
    assert_eq!(agg.all_insert_sum, 9999 + 250);
    assert_eq!(agg.count, 1);
    assert_eq!(agg.insert_sum, 250);
    assert_eq!(agg.histogram.iter().sum::<u64>(), 1);
    assert_eq!(agg.histogram[250], 1);
}

#[test]
fn secondary_and_supplementary_are_excluded() {
    let mut data = header_bytes(b"", &[]);
    data.extend(record_bytes(0, 0x43 | 0x100, 0, 100));
    data.extend(record_bytes(0, 0xff | 0x800, 0, 100));
    data.extend(record_bytes(0, 0x41, 0, 100));
    data.extend(record_bytes(0, 0x43, 1, 100));
    data.extend(record_bytes(-1, 0x43, -1, 120));
    let agg = scan_plain(data, 500).unwrap();
    assert_eq!(agg.all_count, 1);
    assert_eq!(agg.count, 1);
    assert_eq!(agg.histogram[120], 1);
}

#[test]
fn end_at_record_boundary_is_clean() {
    let data = three_pairs();
    let start = parse_header(&data).unwrap();
    let mut pos = start;
    let mut n = 0;
    while let Some((_, next)) = decode_record(&data, pos).unwrap() {
        pos = next;
        n += 1;
    }
    assert_eq!(n, 3);
    assert_eq!(pos, data.len());
}

#[test]
fn end_inside_a_record_is_truncated() {
    let data = three_pairs();
    for cut in [1, 3, 4, 20, 50] {
        let short = data[..data.len() - cut].to_vec();
        assert!(matches!(scan_plain(short, 500), Err(DecodeError::Truncated)));
    }
}

#[test]
fn short_block_size_is_refused() {
    let mut data = header_bytes(b"", &[]);
    let body = record_body(0, 0x43, 0, 100, 5, 0);
    let mut rec = ((body.len() - 1) as u32).to_le_bytes().to_vec();
    rec.extend_from_slice(&body[..body.len() - 1]);
    data.extend(rec);
    assert!(matches!(scan_plain(data.clone(), 500), Err(DecodeError::BadBlockSize)));
    let mut tiny = header_bytes(b"", &[]);
    tiny.extend_from_slice(&8u32.to_le_bytes());
    tiny.extend_from_slice(&[0u8; 8]);
    assert!(matches!(scan_plain(tiny, 500), Err(DecodeError::BadBlockSize)));
}

#[test]
fn auxiliary_bytes_are_skipped() {
    let mut data = header_bytes(b"", &[]);
    let body = record_body(0, 0x43, 0, 42, 7, 33);
    data.extend((body.len() as u32).to_le_bytes());
    data.extend(body);
    data.extend(record_bytes(0, 0x43, 0, 43));
    let agg = scan_plain(data, 100).unwrap();
    assert_eq!(agg.count, 2);
    assert_eq!(agg.histogram[42], 1);
    assert_eq!(agg.histogram[43], 1);
}

#[test]
fn decoded_fields() {
    let data = record_bytes(3, 0x63, 4, -77);
    let (rec, next) = decode_record(&data, 0).unwrap().unwrap();
    assert_eq!(rec, Record { ref_id: 3, mate_ref_id: 4, tlen: -77, flag: 0x63 });
    assert_eq!(next, data.len());
    assert_eq!(rec.insert_size(), 77);
    assert!(!rec.is_qualifying_pair());
}

#[test]
fn bad_magic_is_refused() {
    let mut data = three_pairs();
    data[3] = 2;
    assert!(matches!(scan_plain(data, 500), Err(DecodeError::BadMagic)));
    assert!(matches!(parse_header(b"BAM"), Err(DecodeError::Truncated)));
}

#[test]
fn truncated_dictionary_is_refused() {
    let data = header_bytes(b"text", &[b"chr1\0"]);
    assert_eq!(parse_header(&data), Ok(data.len()));
    assert_eq!(parse_header(&data[..data.len() - 1]), Err(DecodeError::Truncated));
    let mut negative = vec![b'B', b'A', b'M', 1];
    negative.extend_from_slice(&(-1i32).to_le_bytes());
    negative.extend_from_slice(&0u32.to_le_bytes());
    assert_eq!(parse_header(&negative), Err(DecodeError::Truncated));
}

#[test]
fn empty_scan_has_no_summary() {
    let agg = scan_plain(header_bytes(b"", &[]), 10).unwrap();
    assert_eq!(agg.all_count, 0);
    assert_eq!(agg.histogram, vec![0u64; 11]);
    assert!(agg.finalize().is_none());
}

#[test]
fn largest_template_length_magnitude() {
    let mut data = header_bytes(b"", &[]);
    data.extend(record_bytes(0, 0x43, 0, i32::MIN));
    let agg = scan_plain(data, 5).unwrap();
    assert_eq!(agg.all_insert_sum, 0x8000_0000);
    assert_eq!(agg.count, 0);
}

#[test]
fn quantiles_use_first_exceeding_bin() {
    let mut agg = Aggregates::new(10);
    for t in [2, 2, 2, 2, 5, 7, 7, 9] {
        agg.accept(&Record { ref_id: 0, mate_ref_id: 0, tlen: t, flag: 0x43 });
    }
    let s = agg.finalize().unwrap();
    // thresholds 2, 4, 6 over running counts 4 (bin 2), 5 (bin 5), 7 (bin 7), 8 (bin 9)
    assert_eq!((s.q1, s.q2, s.q3), (2, 5, 7));
    assert!(s.q1 <= s.q2 && s.q2 <= s.q3);
    assert_eq!(s.height_max, 4);
}

#[test]
fn one_bin_holds_all_quantiles() {
    let mut agg = Aggregates::new(10);
    for _ in 0..4 {
        agg.accept(&Record { ref_id: 0, mate_ref_id: 0, tlen: 6, flag: 0x43 });
    }
    let s = agg.finalize().unwrap();
    assert_eq!((s.q1, s.q2, s.q3), (6, 6, 6));
    let mean = s.insert_sum as f64 / s.count as f64;
    let var = s.sq_insert_sum as f64 / s.count as f64 - mean * mean;
    assert_eq!(var, 0.0);
}

#[test]
fn spread_is_positive_for_distinct_sizes() {
    let mut agg = Aggregates::new(10);
    for t in [4, 6] {
        agg.accept(&Record { ref_id: 0, mate_ref_id: 0, tlen: t, flag: 0x43 });
    }
    let s = agg.finalize().unwrap();
    let mean = s.insert_sum as f64 / s.count as f64;
    let sd = (s.sq_insert_sum as f64 / s.count as f64 - mean * mean).sqrt();
    assert_eq!(sd, 1.0);
}

#[test]
fn record_accessors() {
    let mut r = Record::new();
    r.set_flag(0x43);
    r.set_tlen(-5);
    r.set_ref_id(2);
    r.set_mate_ref_id(2);
    assert_eq!((*r.flag(), *r.tlen(), *r.ref_id(), *r.mate_ref_id()), (0x43, -5, 2, 2));
    assert!(r.is_qualifying_pair());
}

#[test]
fn picture_format_by_extension() {
    assert_eq!(PicFormat::from_str("out.svg"), Ok(PicFormat::Svg));
    assert_eq!(PicFormat::from_str("OUT.SVG"), Ok(PicFormat::Svg));
    assert_eq!(PicFormat::from_str("a/b.png"), Ok(PicFormat::Png));
    assert_eq!(PicFormat::from_str("x.PNG"), Ok(PicFormat::Png));
    assert_eq!(PicFormat::from_str("x.Png"), Err(ConfigError::UnknownExtension));
    assert_eq!(PicFormat::from_str("svg"), Err(ConfigError::UnknownExtension));
    assert_eq!(PicFormat::from_str("plot.jpg"), Err(ConfigError::UnknownExtension));
}

#[test]
fn means_rounded_to_hundredths() {
    assert_eq!(mean_hundredths(600, 3), 20000);
    assert_eq!(mean_hundredths(2, 3), 67);
    assert_eq!(mean_hundredths(1, 8), 13);
    assert_eq!(mean_hundredths(1, 300), 0);
    assert_eq!(mean_hundredths(0x8000_0000, 1), 0x8000_0000 * 100);
}

#[test]
fn open_errors_come_back_from_the_scan() {
    let mut data = three_pairs();
    data[0] = b'C';
    assert!(matches!(scan_compressed(&gzip(&data), 500), Err(DecodeError::BadMagic)));
    let short = three_pairs()[..10].to_vec();
    assert!(matches!(scan_compressed(&gzip(&short), 500), Err(DecodeError::Truncated)));
    let mut gz = gzip(&three_pairs());
    gz.truncate(gz.len() - 6);
    assert!(matches!(scan_compressed(&gz, 500), Err(DecodeError::BadCompression)));
}
