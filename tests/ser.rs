use solhat::ser::{ColorFormatId, Endian, SerError, SerFile};
use solhat::timestamp::TimeStamp;

fn put_i32(b: &mut [u8], at: usize, v: i32) {
    b[at..at + 4].copy_from_slice(&v.to_le_bytes());
}

fn put_u64(b: &mut [u8], at: usize, v: u64) {
    b[at..at + 8].copy_from_slice(&v.to_le_bytes());
}

fn put_text(b: &mut [u8], at: usize, len: usize, s: &str) {
    let bytes = s.as_bytes();
    assert!(bytes.len() <= len);
    b[at..at + bytes.len()].copy_from_slice(bytes);
}

#[allow(clippy::too_many_arguments)]
fn header(
    file_id: &str,
    color: i32,
    endian: i32,
    width: i32,
    height: i32,
    depth: i32,
    frames: i32,
    observer: &str,
    instrument: &str,
    telescope: &str,
    local: u64,
    utc: u64,
) -> Vec<u8> {
    let mut b = vec![0u8; 178];
    put_text(&mut b, 0, 14, file_id);
    put_i32(&mut b, 14, 0);
    put_i32(&mut b, 18, color);
    put_i32(&mut b, 22, endian);
    put_i32(&mut b, 26, width);
    put_i32(&mut b, 30, height);
    put_i32(&mut b, 34, depth);
    put_i32(&mut b, 38, frames);
    put_text(&mut b, 42, 40, observer);
    put_text(&mut b, 82, 40, instrument);
    put_text(&mut b, 122, 40, telescope);
    put_u64(&mut b, 162, local);
    put_u64(&mut b, 170, utc);
    b
}

const BLANK: &str = "                                        ";
const INSTRUMENT: &str = "ASI=ZWO ASI174MMtemp=46.5               ";
const TELESCOPE: &str = "fps=92.17gain=160exp=1.50               ";

fn capture_like_sun_150729() -> Vec<u8> {
    let mut data = header(
        "LUCAM-RECORDER",
        0,
        0,
        1936,
        1216,
        8,
        114,
        BLANK,
        INSTRUMENT,
        TELESCOPE,
        637648348476600000,
        637648348476340000,
    );
    let frames_end = 178 + 1936 * 1216 * 114;
    data.resize(frames_end + 8 * 114, 0);
    put_u64(&mut data, frames_end, 637648348476340000);
    data
}

#[test]
fn test_load_ser() {
    let ser_file = SerFile::parse(capture_like_sun_150729(), "testdata/Sun_150729.ser".to_string())
        .expect("Unable to load SER file");
    assert!(ser_file.validate().is_ok());

    assert_eq!(ser_file.file_id, "LUCAM-RECORDER");
    assert_eq!(ser_file.camera_series_id, 0);
    assert_eq!(ser_file.color_id, ColorFormatId::Mono);
    assert_eq!(ser_file.image_width, 1936);
    assert_eq!(ser_file.image_height, 1216);
    assert_eq!(ser_file.pixel_depth, 8);
    assert_eq!(ser_file.frame_count, 114);
    assert_eq!(ser_file.observer, "                                        ");
    assert_eq!(ser_file.instrument, "ASI=ZWO ASI174MMtemp=46.5               ");
    assert_eq!(ser_file.telescope, "fps=92.17gain=160exp=1.50               ");
    assert_eq!(ser_file.date_time, TimeStamp::from_u64(637648348476600000));
    assert_eq!(ser_file.date_time_utc, TimeStamp::from_u64(637648348476340000));
    assert_eq!(ser_file.total_size, 268377154);

    assert_eq!(ser_file.has_timestamps(), true);

    let image_frame_size_bytes =
        ser_file.image_width * ser_file.image_height * (ser_file.pixel_depth / 8);
    assert_eq!(image_frame_size_bytes, 2354176);
    assert_eq!(ser_file.image_frame_size_bytes(), 2354176);

    let bytes_per_pixel = ser_file.pixel_depth / 8;
    assert_eq!(bytes_per_pixel, 1);

    let expected_image_size = bytes_per_pixel * ser_file.image_width * ser_file.image_height;
    assert_eq!(expected_image_size, image_frame_size_bytes);

    assert_eq!(ser_file.image_frame_start_index(0), 178);
    assert_eq!(ser_file.image_frame_start_index(1), 178 + expected_image_size);

    let has_ts = if ser_file.has_timestamps() { 1 } else { 0 };
    let expected_size = 178 + (image_frame_size_bytes * ser_file.frame_count) + (8 * ser_file.frame_count * has_ts);
    println!("Expected File Size: {}", expected_size);
    assert_eq!(ser_file.total_size, expected_size);
    assert_eq!(ser_file.expected_size(), expected_size);

    let expected_timestamp_block_start = 178 + (image_frame_size_bytes * ser_file.frame_count);
    assert_eq!(ser_file.timestamp_block_start_index(), expected_timestamp_block_start);
    assert_eq!(ser_file.timestamp_start_index(0), expected_timestamp_block_start);
    assert_eq!(ser_file.timestamp_start_index(1), expected_timestamp_block_start + 8);
}

#[test]
fn test_fetch_frame() {
    let ser_file = SerFile::parse(capture_like_sun_150729(), "testdata/Sun_150729.ser".to_string())
        .expect("Unable to load SER file");
    assert_eq!(178, ser_file.image_frame_start_index(0));
    let frame_0 = ser_file.get_frame(0).expect("Failed extracting frame at index 0");
    assert_eq!(frame_0.width, ser_file.image_width);
    assert_eq!(frame_0.height, ser_file.image_height);
    println!("Timestamp: {:?}", frame_0.timestamp);
    assert_eq!(frame_0.timestamp, TimeStamp::from_u64(637648348476340000));
}

#[test]
fn test_on_ser_file() {
    let observer = "Kevin M. Gill\0\0\0\0\0\0\0@\u{7}\0\0\0\0\0\0\0\0\0\0\0\0\0\0\u{5}\0\0\0";
    let instrument = "ASI=ZWO ASI174MMtemp=45.8\0P\0l\0a\0y\0e\0r\0\\\0";
    let mut data = header("ZWO", 0, 1, 1936, 1216, 16, 5, observer, instrument, BLANK, 0, 0);
    data.resize(178 + 1936 * 1216 * 2 * 5, 0);
    let ser_file = SerFile::parse(data, "testdata/Sun_130540_F0001-0005.ser".to_string()).unwrap();
    assert_eq!(ser_file.image_width, 1936);
    assert_eq!(ser_file.image_height, 1216);
    assert_eq!(ser_file.pixel_depth, 16);
    assert_eq!(ser_file.frame_count, 5);
    assert_eq!(
        ser_file.observer,
        "Kevin M. Gill\0\0\0\0\0\0\0@\u{7}\0\0\0\0\0\0\0\0\0\0\0\0\0\0\u{5}\0\0\0"
    );
    assert_eq!(ser_file.instrument, "ASI=ZWO ASI174MMtemp=45.8\0P\0l\0a\0y\0e\0r\0\\\0");
}

fn small_container(endian: i32, depth: i32, trailer: bool) -> Vec<u8> {
    let mut data = header("TEST", 8, endian, 3, 2, depth, 2, "me", "cam", "scope", 5, 7);
    let bpp = (depth / 8) as usize;
    for f in 0..2u16 {
        for i in 0..6u16 {
            let v: u16 = 1000 * f + 257 * i + 1;
            if bpp == 1 {
                data.push((v % 256) as u8);
            } else if endian == 0 {
                data.extend_from_slice(&v.to_be_bytes());
            } else {
                data.extend_from_slice(&v.to_le_bytes());
            }
        }
    }
    if trailer {
        data.extend_from_slice(&621355968000000000u64.to_le_bytes());
        data.extend_from_slice(&630822816000000000u64.to_le_bytes());
    }
    data
}

#[test]
fn round_trip_of_synthetic_container() {
    for endian in [0, 1, 100] {
        let f = SerFile::parse(small_container(endian, 16, true), "a.ser".to_string()).unwrap();
        assert!(f.validate().is_ok());
        assert_eq!(f.color_id, ColorFormatId::BayerRggb);
        assert_eq!(f.image_width, 3);
        assert_eq!(f.image_height, 2);
        assert_eq!(f.pixel_depth, 16);
        assert_eq!(f.frame_count, 2);
        assert_eq!(f.date_time.timestamp, 5);
        assert_eq!(f.date_time_utc.timestamp, 7);
        assert_eq!(f.observer.len(), 40);
        assert!(f.observer.starts_with("me\0"));
        let frame = f.get_frame(1).unwrap();
        assert_eq!(frame.samples, vec![1001, 1258, 1515, 1772, 2029, 2286]);
        assert_eq!(frame.timestamp.year, 2000);
        assert_eq!(frame.timestamp.month, 1);
        assert_eq!(frame.timestamp.day, 1);
        assert_eq!(f.get_frame(0).unwrap().timestamp.year, 1970);
    }
    assert_eq!(
        SerFile::parse(small_container(0, 16, true), "a.ser".to_string()).unwrap().endianness,
        Endian::BigEndian
    );
}

#[test]
fn eight_bit_frames_without_trailer() {
    let f = SerFile::parse(small_container(1, 8, false), "b.ser".to_string()).unwrap();
    assert!(f.validate().is_ok());
    assert!(!f.has_timestamps());
    assert_eq!(f.get_frame_timestamp(1), Ok(0));
    let frame = f.get_frame(0).unwrap();
    assert_eq!(frame.samples, vec![1, 2, 3, 4, 5, 6]);
    assert_eq!(frame.timestamp.timestamp, 0);
}

#[test]
fn truncated_container_fails_validation() {
    for trailer in [false, true] {
        let mut data = small_container(1, 16, trailer);
        data.pop();
        let f = SerFile::parse(data, "c.ser".to_string()).unwrap();
        assert_eq!(f.validate(), Err(SerError::SizeMismatch));
    }
}

#[test]
fn frame_out_of_range() {
    let f = SerFile::parse(small_container(1, 16, true), "d.ser".to_string()).unwrap();
    assert!(matches!(f.get_frame(2), Err(SerError::FrameOutOfRange)));
    assert_eq!(f.get_frame_timestamp(2), Err(SerError::FrameOutOfRange));
}

#[test]
fn malformed_headers_are_refused() {
    assert!(matches!(SerFile::parse(vec![0u8; 100], "e.ser".to_string()), Err(SerError::MalformedHeader)));
    let bad_color = header("X", 5, 1, 1, 1, 8, 0, "", "", "", 0, 0);
    assert!(matches!(SerFile::parse(bad_color, "e.ser".to_string()), Err(SerError::MalformedHeader)));
    let bad_depth = header("X", 0, 1, 1, 1, 12, 0, "", "", "", 0, 0);
    assert!(matches!(SerFile::parse(bad_depth, "e.ser".to_string()), Err(SerError::MalformedHeader)));
    let bad_endian = header("X", 0, 7, 1, 1, 8, 0, "", "", "", 0, 0);
    assert!(matches!(SerFile::parse(bad_endian, "e.ser".to_string()), Err(SerError::MalformedHeader)));
    let negative = header("X", 0, 1, -1, 1, 8, 0, "", "", "", 0, 0);
    assert!(matches!(SerFile::parse(negative, "e.ser".to_string()), Err(SerError::MalformedHeader)));
}

#[test]
fn color_format_codes() {
    assert_eq!(ColorFormatId::from_i32(0), Some(ColorFormatId::Mono));
    assert_eq!(ColorFormatId::from_i32(11), Some(ColorFormatId::BayerBggr));
    assert_eq!(ColorFormatId::from_i32(101), Some(ColorFormatId::Bgr));
    assert_eq!(ColorFormatId::from_i32(12), None);
    assert!(ColorFormatId::BayerRggb.is_bayer());
    assert!(!ColorFormatId::Rgb.is_bayer());
    assert_eq!(Endian::from_i32(100), Some(Endian::NativeEndian));
    assert_eq!(Endian::from_i32(2), None);
}
