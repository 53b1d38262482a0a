use caliga_bootloader::file_info::{file_size, FileInfoBuffer, FILE_INFO_SIZE};
use caliga_bootloader::filesystem::{
    split_path, validate_path, FileDescriptor, OpenFileError, COMPONENT_MAX_LEN, MAX_PATH_LEN,
};
use caliga_bootloader::gdt::{Gdtr, GdtrError};
use caliga_bootloader::io::{Io, ReadOnly, WriteOnly};
use caliga_bootloader::layout::Layout;
use caliga_bootloader::system_registers::{
    current_exception_level, physical_address_width, ExceptionLevel,
};

#[test]
fn layout_fields() {
    let layout = Layout::new(8, 4);
    assert_eq!(layout.size(), 8);
    assert_eq!(layout.align(), 4);
    assert_eq!(layout, Layout::new(8, 4));
    assert_ne!(layout, Layout::new(8, 8));
    assert_ne!(layout, Layout::new(4, 4));
}

fn encode_path(path: &str) -> Vec<u16> {
    let mut out: Vec<u16> = path.chars().map(|c| c as u16).collect();
    out.push(0);
    out
}

#[test]
fn split_path_components() {
    let path = encode_path("/boot/kernel.elf");
    let components = split_path(&path[..]);
    assert_eq!(components, vec![(1, 5), (6, 16)]);
    assert_eq!(&path[1..5], &encode_path("boot")[..4]);
}

#[test]
fn split_path_skips_empty_components() {
    let path = encode_path("//a//b/");
    let components = split_path(&path[..]);
    assert_eq!(components, vec![(2, 3), (5, 6)]);
}

#[test]
fn split_path_empty() {
    let path = encode_path("");
    assert_eq!(split_path(&path[..]), vec![]);
    assert_eq!(split_path(&[]), vec![]);
}

#[test]
fn validate_path_accepts_normal_paths() {
    let path = encode_path("/boot/kernel.elf");
    let components = validate_path(&path[..]).expect("a short path should validate");
    assert_eq!(components, split_path(&path[..]));
}

#[test]
fn validate_path_rejects_long_path() {
    let mut path: Vec<u16> = vec!['a' as u16; MAX_PATH_LEN + 1];
    path.push(0);
    assert_eq!(validate_path(&path[..]), Err(OpenFileError::PathTooLong));
}

#[test]
fn validate_path_rejects_long_component() {
    let mut path: Vec<u16> = vec!['/' as u16];
    path.extend(std::iter::repeat('a' as u16).take(COMPONENT_MAX_LEN + 1));
    path.push(0);
    assert_eq!(validate_path(&path[..]), Err(OpenFileError::ComponentTooLong));
}

#[test]
fn file_descriptor_fields() {
    let fd = FileDescriptor {
        index: 3,
        offset: 0,
        path: String::from("/boot/kernel.elf"),
    };
    assert_eq!(fd.index, 3);
    assert_eq!(fd.offset, 0);
    assert_ne!(OpenFileError::FileNotFound, OpenFileError::AlreadyOpen);
}

#[test]
fn file_info_starts_zeroed() {
    let buffer = FileInfoBuffer::new();
    assert_eq!(buffer.info.len(), FILE_INFO_SIZE);
    assert!(buffer.info.iter().all(|b| *b == 0));
    assert_eq!(file_size(&buffer), 0);
}

#[test]
fn file_size_little_endian() {
    let mut buffer = FileInfoBuffer::new();
    let size: u64 = 0x0123_4567_89ab_cdef;
    buffer.info[8..16].copy_from_slice(&size.to_le_bytes());
    assert_eq!(file_size(&buffer), size);
}

#[test]
fn gdtr_round_trip() {
    let mut image = [0u8; 10];
    image[0..2].copy_from_slice(&0x0017u16.to_le_bytes());
    image[2..10].copy_from_slice(&0xdead_0000u64.to_le_bytes());
    let gdtr = Gdtr::try_from(image).expect("a valid image should parse");
    assert_eq!(gdtr.limit(), 0x17);
    assert_eq!(gdtr.base(), 0xdead_0000);
}

#[test]
fn gdtr_invalid_limit() {
    let mut image = [0u8; 10];
    image[0..2].copy_from_slice(&0x0018u16.to_le_bytes());
    image[2..10].copy_from_slice(&0x1000u64.to_le_bytes());
    assert_eq!(Gdtr::try_from(image), Err(GdtrError::InvalidLimit));
}

#[test]
fn gdtr_null_base() {
    let mut image = [0u8; 10];
    image[0..2].copy_from_slice(&0x0007u16.to_le_bytes());
    assert_eq!(Gdtr::try_from(image), Err(GdtrError::InvalidPointer));
    // The unchecked reader still hands the fields back
    let raw = Gdtr::from_array_unchecked(image);
    assert_eq!(raw.limit(), 7);
    assert_eq!(raw.base(), 0);
}

#[test]
fn exception_levels_decode() {
    assert_eq!(current_exception_level(0b0000), ExceptionLevel::EL0);
    assert_eq!(current_exception_level(0b0100), ExceptionLevel::EL1);
    assert_eq!(current_exception_level(0b1000), ExceptionLevel::EL2);
    assert_eq!(current_exception_level(0b1100), ExceptionLevel::EL3);
}

#[test]
fn address_widths_decode() {
    assert_eq!(physical_address_width(0b0000), 32);
    assert_eq!(physical_address_width(0b0001), 36);
    assert_eq!(physical_address_width(0b0101), 48);
    assert_eq!(physical_address_width(0b0110), 52);
    // Only the low nibble matters
    assert_eq!(physical_address_width(0b0110_0000 | 0b0010), 40);
}

struct MockReg {
    value: u8,
    writes: Vec<u8>,
}

impl Io for MockReg {
    type Value = u8;

    fn read(&self) -> u8 {
        self.value
    }

    fn write(&mut self, value: u8) {
        self.writes.push(value);
    }
}

#[test]
fn read_only_register() {
    let reg = ReadOnly::new(MockReg { value: 0x5a, writes: vec![] });
    assert_eq!(reg.read(), 0x5a);
    assert_eq!(reg.read(), 0x5a);
}

#[test]
fn write_only_register() {
    let mut reg = WriteOnly::new(MockReg { value: 0, writes: vec![] });
    reg.write(7);
    reg.write(9);
    assert_eq!(reg.inner.writes, vec![7, 9]);
}
