use psi_device_tree::advancedstringtable;
use psi_device_tree::stringtable;
use psi_device_tree::util::align;
use psi_device_tree::util::extend_from_slice;
use psi_device_tree::util::pad;
use psi_device_tree::util::read_be_u32;
use psi_device_tree::util::read_be_u64;
use psi_device_tree::util::read_bstring0;
use psi_device_tree::util::subslice;
use psi_device_tree::util::write_be_u32;
use psi_device_tree::util::write_be_u64;
use psi_device_tree::util::write_bstring0;
use psi_device_tree::DeviceTreeError;
use psi_device_tree::PropError;
use psi_device_tree::SliceReadError;
use psi_device_tree::VecWriteError;

#[test]
fn align_rounds_up() {
    assert_eq!(align(0, 4), 0);
    assert_eq!(align(1, 4), 4);
    assert_eq!(align(4, 4), 4);
    assert_eq!(align(5, 4), 8);
    assert_eq!(align(9, 8), 16);
    assert_eq!(align(7, 1), 7);
}

#[test]
fn reads_big_endian_words() {
    let b = [0x01, 0x02, 0x03, 0x04, 0x05, 0x06, 0x07, 0x08, 0x09];
    assert_eq!(read_be_u32(&b, 0), Ok(0x01020304));
    assert_eq!(read_be_u32(&b, 5), Ok(0x06070809));
    assert_eq!(read_be_u32(&b, 6), Err(SliceReadError::UnexpectedEndOfInput));
    assert_eq!(read_be_u32(&b, usize::MAX), Err(SliceReadError::UnexpectedEndOfInput));
    assert_eq!(read_be_u64(&b, 0), Ok(0x0102030405060708));
    assert_eq!(read_be_u64(&b, 1), Ok(0x0203040506070809));
    assert_eq!(read_be_u64(&b, 2), Err(SliceReadError::UnexpectedEndOfInput));
    assert_eq!(read_be_u32(&[0xff, 0xff, 0xff, 0xff], 0), Ok(u32::MAX));
    assert_eq!(read_be_u64(&[0xff; 8], 0), Ok(u64::MAX));
}

#[test]
fn reads_terminated_strings() {
    let b = [b'a', b'b', 0, b'c', 0, b'd'];
    assert_eq!(read_bstring0(&b, 0), Ok(&b[0..2]));
    assert_eq!(read_bstring0(&b, 1), Ok(&b[1..2]));
    assert_eq!(read_bstring0(&b, 2), Ok(&b[2..2]));
    assert_eq!(read_bstring0(&b, 3), Ok(&b[3..4]));
    assert_eq!(read_bstring0(&b, 5), Err(SliceReadError::UnexpectedEndOfInput));
    assert_eq!(read_bstring0(&b, 6), Err(SliceReadError::UnexpectedEndOfInput));
    assert_eq!(read_bstring0(&b, 7), Err(SliceReadError::UnexpectedEndOfInput));
}

#[test]
fn borrows_subslices() {
    let b = [1u8, 2, 3, 4];
    assert_eq!(subslice(&b, 1, 3), Ok(&b[1..3]));
    assert_eq!(subslice(&b, 4, 4), Ok(&b[4..4]));
    assert_eq!(subslice(&b, 0, 5), Err(SliceReadError::UnexpectedEndOfInput));
    assert_eq!(subslice(&b, 3, 2), Err(SliceReadError::UnexpectedEndOfInput));
}

#[test]
fn writes_words_at_the_end_or_over_a_word() {
    let mut v = Vec::new();
    assert_eq!(write_be_u32(&mut v, 0, 0x01020304), Ok(()));
    assert_eq!(write_be_u32(&mut v, 4, 0), Ok(()));
    assert_eq!(v, vec![1, 2, 3, 4, 0, 0, 0, 0]);
    assert_eq!(write_be_u32(&mut v, 4, 0xa0b0c0d0), Ok(()));
    assert_eq!(v, vec![1, 2, 3, 4, 0xa0, 0xb0, 0xc0, 0xd0]);
    assert_eq!(write_be_u32(&mut v, 0, 0xffffffff), Ok(()));
    assert_eq!(v, vec![0xff, 0xff, 0xff, 0xff, 0xa0, 0xb0, 0xc0, 0xd0]);
    assert_eq!(write_be_u64(&mut v, 8, 0x0102030405060708), Ok(()));
    assert_eq!(&v[8..], &[1, 2, 3, 4, 5, 6, 7, 8]);
    assert_eq!(write_be_u64(&mut v, 0, 0x1112131415161718), Ok(()));
    assert_eq!(&v[..8], &[0x11, 0x12, 0x13, 0x14, 0x15, 0x16, 0x17, 0x18]);
}

#[test]
fn refuses_writes_that_break_the_discipline() {
    let mut v = vec![0u8; 6];
    assert_eq!(write_be_u32(&mut v, 2, 1), Err(VecWriteError::UnalignedWrite));
    assert_eq!(write_be_u32(&mut v, 6, 1), Err(VecWriteError::UnalignedWrite));
    assert_eq!(write_be_u32(&mut v, 4, 1), Err(VecWriteError::NonContiguousWrite));
    assert_eq!(write_be_u32(&mut v, 8, 1), Err(VecWriteError::NonContiguousWrite));
    assert_eq!(write_be_u64(&mut v, 4, 1), Err(VecWriteError::UnalignedWrite));
    assert_eq!(write_be_u64(&mut v, 0, 1), Err(VecWriteError::NonContiguousWrite));
    assert_eq!(write_be_u64(&mut v, 8, 1), Err(VecWriteError::NonContiguousWrite));
    assert_eq!(v, vec![0u8; 6]);
}

#[test]
fn appends_strings_padding_and_bytes() {
    let mut v = Vec::new();
    assert_eq!(write_bstring0(&mut v, "ab"), Ok(()));
    assert_eq!(v, vec![b'a', b'b', 0]);
    assert_eq!(pad(&mut v, 4), Ok(()));
    assert_eq!(v, vec![b'a', b'b', 0, 0]);
    assert_eq!(pad(&mut v, 4), Ok(()));
    assert_eq!(v.len(), 4);
    assert_eq!(pad(&mut v, 8), Ok(()));
    assert_eq!(v.len(), 8);
    extend_from_slice(&mut v, &[9, 8]);
    assert_eq!(&v[8..], &[9, 8]);
    assert_eq!(write_bstring0(&mut v, ""), Ok(()));
    assert_eq!(v.len(), 11);
}

#[test]
fn plain_table_appends_every_name() {
    let mut t = stringtable::StringTable::new();
    assert_eq!(t.add_string("reg"), 0);
    assert_eq!(t.add_string("compatible"), 4);
    assert_eq!(t.add_string("reg"), 15);
    assert_eq!(t.add_string(""), 19);
    assert_eq!(t.buffer, b"reg\0compatible\0reg\0\0".to_vec());
    assert_eq!(stringtable::StringTable::default().buffer, Vec::<u8>::new());
}

#[test]
fn dedup_table_writes_every_name_once() {
    let mut t = advancedstringtable::StringTable::new();
    assert_eq!(t.add_string("reg"), 0);
    assert_eq!(t.add_string("compatible"), 4);
    assert_eq!(t.add_string("reg"), 0);
    assert_eq!(t.add_string("compatible"), 4);
    assert_eq!(t.add_string("status"), 15);
    assert_eq!(t.buffer, b"reg\0compatible\0status\0".to_vec());
}

#[test]
fn errors_convert() {
    assert_eq!(
        DeviceTreeError::from(SliceReadError::UnexpectedEndOfInput),
        DeviceTreeError::SliceReadError(SliceReadError::UnexpectedEndOfInput)
    );
    assert_eq!(
        DeviceTreeError::from(VecWriteError::UnalignedWrite),
        DeviceTreeError::VecWriteError(VecWriteError::UnalignedWrite)
    );
    assert_eq!(
        DeviceTreeError::from(PropError::Missing0),
        DeviceTreeError::PropError(PropError::Missing0)
    );
    assert_eq!(
        PropError::from(SliceReadError::UnexpectedEndOfInput),
        PropError::SliceReadError(SliceReadError::UnexpectedEndOfInput)
    );
    let bad = core::str::from_utf8(&[0xff]).unwrap_err();
    assert_eq!(DeviceTreeError::from(bad), DeviceTreeError::Utf8Error);
    assert_eq!(PropError::from(bad), PropError::Utf8Error);
}
