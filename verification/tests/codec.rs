use psi_device_tree::util::read_be_u32;
use psi_device_tree::util::read_be_u64;
use psi_device_tree::DeviceTree;
use psi_device_tree::DeviceTreeError;
use psi_device_tree::Node;
use psi_device_tree::SliceReadError;

fn leaf(name: &str) -> Node {
    Node { name: name.to_string(), props: Vec::new(), children: Vec::new() }
}

fn minimal() -> DeviceTree {
    DeviceTree { version: 17, boot_cpuid_phys: 0, reserved: Vec::new(), root: leaf("") }
}

fn sample() -> DeviceTree {
    let cpu0 = Node {
        name: "cpu@0".to_string(),
        props: vec![
            ("compatible".to_string(), b"arm,cortex-a7\0".to_vec()),
            ("reg".to_string(), vec![0, 0, 0, 0]),
        ],
        children: Vec::new(),
    };
    let cpu1 = Node {
        name: "cpu@1".to_string(),
        props: vec![
            ("compatible".to_string(), b"arm,cortex-a7\0".to_vec()),
            ("reg".to_string(), vec![0, 0, 0, 1]),
            ("empty".to_string(), Vec::new()),
        ],
        children: Vec::new(),
    };
    let cpus = Node {
        name: "cpus".to_string(),
        props: vec![("#address-cells".to_string(), vec![0, 0, 0, 1])],
        children: vec![cpu0, cpu1],
    };
    let memory = Node {
        name: "memory".to_string(),
        props: vec![("reg".to_string(), vec![0, 0, 0, 0, 0x40, 0, 0, 0, 1])],
        children: Vec::new(),
    };
    let root = Node {
        name: String::new(),
        props: vec![("model".to_string(), b"Some Board\0".to_vec())],
        children: vec![cpus, memory],
    };
    DeviceTree {
        version: 17,
        boot_cpuid_phys: 3,
        reserved: vec![(0x8000_0000, 0x1_0000), (0x1_0000_0000, 0x20)],
        root,
    }
}

#[test]
fn minimal_tree_round_trips() {
    let tree = minimal();
    let dtb = tree.store().unwrap();
    assert_eq!(&dtb[0..4], &[0xd0, 0x0d, 0xfe, 0xed]);
    assert_eq!(read_be_u32(&dtb, 4).unwrap() as usize, dtb.len());
    assert_eq!(DeviceTree::load(&dtb).unwrap(), tree);
}

#[test]
fn minimal_tree_image_is_exact() {
    let dtb = minimal().store().unwrap();
    let expected: Vec<u8> = vec![
        0xd0, 0x0d, 0xfe, 0xed, // magic
        0, 0, 0, 72, // total size
        0, 0, 0, 56, // off_dt_struct
        0, 0, 0, 72, // off_dt_strings
        0, 0, 0, 40, // off_mem_rsvmap
        0, 0, 0, 17, // version
        0, 0, 0, 16, // last_comp_version
        0, 0, 0, 0, // boot_cpuid_phys
        0, 0, 0, 0, // size_dt_strings
        0, 0, 0, 16, // size_dt_struct
        0, 0, 0, 0, 0, 0, 0, 0, 0, 0, 0, 0, 0, 0, 0, 0, // end of the reserved block
        0, 0, 0, 1, // begin node
        0, 0, 0, 0, // empty name, padded
        0, 0, 0, 2, // end node
        0, 0, 0, 9, // end
    ];
    assert_eq!(dtb, expected);
}

#[test]
fn header_fields_of_stored_image() {
    let tree = sample();
    let dtb = tree.store().unwrap();
    assert_eq!(read_be_u32(&dtb, 0), Ok(0xd00dfeed));
    assert_eq!(read_be_u32(&dtb, 4), Ok(dtb.len() as u32));
    assert_eq!(read_be_u32(&dtb, 16), Ok(40));
    assert_eq!(read_be_u32(&dtb, 8), Ok(40 + 3 * 16));
    assert_eq!(read_be_u32(&dtb, 20), Ok(17));
    assert_eq!(read_be_u32(&dtb, 24), Ok(16));
    assert_eq!(read_be_u32(&dtb, 28), Ok(3));
    let off_struct = read_be_u32(&dtb, 8).unwrap();
    let off_strings = read_be_u32(&dtb, 12).unwrap();
    let size_strings = read_be_u32(&dtb, 32).unwrap();
    let size_struct = read_be_u32(&dtb, 36).unwrap();
    assert_eq!(off_struct + size_struct, off_strings);
    assert_eq!(off_strings + size_strings, dtb.len() as u32);
    assert_eq!(read_be_u32(&dtb, (off_strings - 4) as usize), Ok(9));
}

#[test]
fn sample_tree_round_trips() {
    let tree = sample();
    let dtb = tree.store().unwrap();
    assert_eq!(DeviceTree::load(&dtb).unwrap(), tree);
}

#[test]
fn sample_tree_round_trips_with_names_written_once() {
    let tree = sample();
    let dtb = tree.store_dedup().unwrap();
    assert_eq!(DeviceTree::load(&dtb).unwrap(), tree);
}

#[test]
fn names_written_once_make_a_shorter_image() {
    let tree = sample();
    let plain = tree.store().unwrap();
    let dedup = tree.store_dedup().unwrap();
    // "compatible" and "reg" come twice and three times
    let saved = "compatible".len() + 1 + 2 * ("reg".len() + 1);
    assert_eq!(plain.len() - dedup.len(), saved);
    assert_eq!(read_be_u32(&plain, 32).unwrap() - read_be_u32(&dedup, 32).unwrap(), saved as u32);
}

#[test]
fn stored_image_loads_to_a_tree_that_stores_the_same() {
    let dtb = sample().store().unwrap();
    let loaded = DeviceTree::load(&dtb).unwrap();
    let again = loaded.store().unwrap();
    assert_eq!(again, dtb);
    assert_eq!(DeviceTree::load(&again).unwrap(), loaded);
}

#[test]
fn empty_reserved_list_gives_one_pair_of_zeros() {
    let tree = minimal();
    let dtb = tree.store().unwrap();
    let off_rsv = read_be_u32(&dtb, 16).unwrap() as usize;
    let off_struct = read_be_u32(&dtb, 8).unwrap() as usize;
    assert_eq!(off_struct - off_rsv, 16);
    assert_eq!(read_be_u64(&dtb, off_rsv), Ok(0));
    assert_eq!(read_be_u64(&dtb, off_rsv + 8), Ok(0));
    assert_eq!(DeviceTree::load(&dtb).unwrap().reserved, Vec::new());
}

#[test]
fn reserved_block_holds_the_regions_and_the_end() {
    let mut tree = minimal();
    tree.reserved = vec![(0x8000_0000, 0x1_0000)];
    let dtb = tree.store().unwrap();
    let off_rsv = read_be_u32(&dtb, 16).unwrap() as usize;
    let off_struct = read_be_u32(&dtb, 8).unwrap() as usize;
    assert_eq!(off_struct - off_rsv, 32);
    assert_eq!(read_be_u64(&dtb, off_rsv), Ok(0x8000_0000));
    assert_eq!(read_be_u64(&dtb, off_rsv + 8), Ok(0x1_0000));
    assert_eq!(read_be_u64(&dtb, off_rsv + 16), Ok(0));
    assert_eq!(read_be_u64(&dtb, off_rsv + 24), Ok(0));
    assert_eq!(DeviceTree::load(&dtb).unwrap(), tree);
}

#[test]
fn node_without_props_and_children_is_two_tokens_and_a_name() {
    let mut structure = Vec::new();
    let mut strings = psi_device_tree::stringtable::StringTable::new();
    leaf("abc").store(&mut structure, &mut strings).unwrap();
    assert_eq!(structure, vec![0, 0, 0, 1, b'a', b'b', b'c', 0, 0, 0, 0, 2]);
    assert_eq!(strings.buffer, Vec::<u8>::new());
}

#[test]
fn node_name_is_padded_to_a_multiple_of_four() {
    let mut structure = Vec::new();
    let mut strings = psi_device_tree::stringtable::StringTable::new();
    leaf("abcd").store(&mut structure, &mut strings).unwrap();
    assert_eq!(structure, vec![0, 0, 0, 1, b'a', b'b', b'c', b'd', 0, 0, 0, 0, 0, 0, 0, 2]);
}

#[test]
fn node_store_pads_before_its_first_token() {
    let mut structure = vec![7u8];
    let mut strings = psi_device_tree::stringtable::StringTable::new();
    leaf("").store(&mut structure, &mut strings).unwrap();
    assert_eq!(structure, vec![7, 0, 0, 0, 0, 0, 0, 1, 0, 0, 0, 0, 0, 0, 0, 2]);
}

#[test]
fn property_with_empty_value_has_length_zero_and_no_bytes() {
    let node = Node {
        name: String::new(),
        props: vec![("x".to_string(), Vec::new())],
        children: Vec::new(),
    };
    let mut structure = Vec::new();
    let mut strings = psi_device_tree::stringtable::StringTable::new();
    node.store(&mut structure, &mut strings).unwrap();
    let expected: Vec<u8> = vec![
        0, 0, 0, 1, 0, 0, 0, 0, // begin node, empty name
        0, 0, 0, 3, 0, 0, 0, 0, 0, 0, 0, 0, // prop, length 0, name offset 0
        0, 0, 0, 2, // end node
    ];
    assert_eq!(structure, expected);
    assert_eq!(strings.buffer, vec![b'x', 0]);
}

#[test]
fn property_value_is_followed_by_padding() {
    let node = Node {
        name: String::new(),
        props: vec![("a".to_string(), vec![1, 2, 3, 4, 5]), ("b".to_string(), vec![6])],
        children: Vec::new(),
    };
    let mut structure = Vec::new();
    let mut strings = psi_device_tree::stringtable::StringTable::new();
    node.store(&mut structure, &mut strings).unwrap();
    let expected: Vec<u8> = vec![
        0, 0, 0, 1, 0, 0, 0, 0, // begin node, empty name
        0, 0, 0, 3, 0, 0, 0, 5, 0, 0, 0, 0, 1, 2, 3, 4, 5, 0, 0, 0, // a
        0, 0, 0, 3, 0, 0, 0, 1, 0, 0, 0, 2, 6, 0, 0, 0, // b
        0, 0, 0, 2, // end node
    ];
    assert_eq!(structure, expected);
    assert_eq!(strings.buffer, vec![b'a', 0, b'b', 0]);
}

#[test]
fn load_rejects_zeros() {
    let buffer = vec![0u8; 64];
    assert_eq!(DeviceTree::load(&buffer), Err(DeviceTreeError::InvalidMagicNumber));
}

#[test]
fn load_rejects_wrong_size() {
    let mut dtb = minimal().store().unwrap();
    dtb.push(0);
    assert_eq!(DeviceTree::load(&dtb), Err(DeviceTreeError::SizeMismatch));
    let mut dtb = minimal().store().unwrap();
    dtb[7] = 71;
    assert_eq!(DeviceTree::load(&dtb), Err(DeviceTreeError::SizeMismatch));
}

#[test]
fn load_rejects_other_versions() {
    let mut dtb = minimal().store().unwrap();
    dtb[23] = 16;
    assert_eq!(DeviceTree::load(&dtb), Err(DeviceTreeError::VersionNotSupported));
}

#[test]
fn load_rejects_short_buffers() {
    let short = DeviceTreeError::SliceReadError(SliceReadError::UnexpectedEndOfInput);
    assert_eq!(DeviceTree::load(&[]), Err(short));
    assert_eq!(DeviceTree::load(&[0xd0, 0x0d, 0xfe]), Err(short));
    assert_eq!(DeviceTree::load(&[0xd0, 0x0d, 0xfe, 0xed]), Err(short));
    assert_eq!(DeviceTree::load(&[0xd0, 0x0d, 0xfe, 0xed, 0, 0, 0, 8]), Err(short));
}

#[test]
fn load_rejects_a_missing_begin_token() {
    let mut dtb = minimal().store().unwrap();
    dtb[59] = 4;
    assert_eq!(DeviceTree::load(&dtb), Err(DeviceTreeError::ParseError(56)));
}

#[test]
fn load_rejects_a_missing_end_token() {
    let mut dtb = minimal().store().unwrap();
    dtb[67] = 9;
    assert_eq!(DeviceTree::load(&dtb), Err(DeviceTreeError::ParseError(64)));
}

#[test]
fn load_rejects_names_that_are_not_utf8() {
    let mut tree = minimal();
    tree.root.name = "ab".to_string();
    let mut dtb = tree.store().unwrap();
    dtb[60] = 0xff;
    assert_eq!(DeviceTree::load(&dtb), Err(DeviceTreeError::Utf8Error));
    let mut tree = minimal();
    tree.root.props.push(("ab".to_string(), vec![1]));
    let mut dtb = tree.store().unwrap();
    let off_strings = read_be_u32(&dtb, 12).unwrap() as usize;
    dtb[off_strings] = 0xff;
    assert_eq!(DeviceTree::load(&dtb), Err(DeviceTreeError::Utf8Error));
}

#[test]
fn load_rejects_a_value_that_leaves_the_image() {
    let mut tree = minimal();
    tree.root.props.push(("ab".to_string(), vec![1]));
    let mut dtb = tree.store().unwrap();
    // the record starts at 64: token, length, name offset
    dtb[68] = 0xff;
    assert_eq!(
        DeviceTree::load(&dtb),
        Err(DeviceTreeError::SliceReadError(SliceReadError::UnexpectedEndOfInput))
    );
}

#[test]
fn load_rejects_an_unterminated_reserved_block() {
    let mut dtb = minimal().store().unwrap();
    let len = dtb.len() as u8;
    // let the reserved block start at the last eight bytes
    dtb[19] = len - 8;
    assert_eq!(
        DeviceTree::load(&dtb),
        Err(DeviceTreeError::SliceReadError(SliceReadError::UnexpectedEndOfInput))
    );
}

#[test]
fn load_stops_the_reserved_list_at_size_zero() {
    let mut tree = minimal();
    tree.reserved = vec![(1, 2), (3, 4)];
    let mut dtb = tree.store().unwrap();
    // make the size of the second region zero
    for i in 0..8 {
        dtb[40 + 24 + i] = 0;
    }
    let loaded = DeviceTree::load(&dtb).unwrap();
    assert_eq!(loaded.reserved, vec![(1, 2)]);
}

#[test]
fn node_load_returns_the_offset_after_the_node() {
    let dtb = minimal().store().unwrap();
    let (next, node) = Node::load(&dtb, 56, 72).unwrap();
    assert_eq!(next, 68);
    assert_eq!(node, leaf(""));
}

#[test]
fn load_keeps_order_and_duplicates() {
    let mut tree = minimal();
    tree.root.props = vec![
        ("b".to_string(), vec![1]),
        ("a".to_string(), vec![2]),
        ("b".to_string(), vec![3]),
    ];
    tree.root.children = vec![leaf("z"), leaf("a"), leaf("z")];
    let loaded = DeviceTree::load(&tree.store().unwrap()).unwrap();
    assert_eq!(loaded, tree);
    let loaded = DeviceTree::load(&tree.store_dedup().unwrap()).unwrap();
    assert_eq!(loaded, tree);
}

#[test]
fn non_ascii_names_round_trip() {
    let mut tree = minimal();
    tree.root.children = vec![leaf("gerät@1"), leaf("日本")];
    tree.root.props = vec![("größe".to_string(), vec![1, 2])];
    let loaded = DeviceTree::load(&tree.store().unwrap()).unwrap();
    assert_eq!(loaded, tree);
}

/// Walks the structure block and returns the offsets of its tokens.
fn token_offsets(dtb: &[u8]) -> Vec<usize> {
    let mut offsets = Vec::new();
    let mut pos = read_be_u32(dtb, 8).unwrap() as usize;
    let mut depth = 0;
    loop {
        let token = read_be_u32(dtb, pos).unwrap();
        offsets.push(pos);
        match token {
            1 => {
                depth += 1;
                let mut end = pos + 4;
                while dtb[end] != 0 {
                    end += 1;
                }
                pos = (end + 1 + 3) / 4 * 4;
            }
            3 => {
                let len = read_be_u32(dtb, pos + 4).unwrap() as usize;
                pos = (pos + 12 + len + 3) / 4 * 4;
            }
            2 => {
                depth -= 1;
                pos += 4;
                if depth == 0 {
                    return offsets;
                }
            }
            other => panic!("no token at {}: {}", pos, other),
        }
    }
}

#[test]
fn tokens_stand_at_multiples_of_four() {
    for dtb in [sample().store().unwrap(), sample().store_dedup().unwrap()] {
        let start = read_be_u32(&dtb, 8).unwrap() as usize;
        assert_eq!(start % 4, 0);
        let offsets = token_offsets(&dtb);
        // five nodes and eight properties
        assert_eq!(offsets.len(), 2 * 5 + 8);
        for offset in offsets {
            assert_eq!((offset - start) % 4, 0);
        }
    }
}
