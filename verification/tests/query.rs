use psi_device_tree::DeviceTree;
use psi_device_tree::Node;
use psi_device_tree::PropError;
use psi_device_tree::SliceReadError;

fn node(name: &str, props: Vec<(&str, Vec<u8>)>, children: Vec<Node>) -> Node {
    Node {
        name: name.to_string(),
        props: props.into_iter().map(|(k, v)| (k.to_string(), v)).collect(),
        children,
    }
}

fn tree(root: Node) -> DeviceTree {
    DeviceTree { version: 17, boot_cpuid_phys: 0, reserved: Vec::new(), root }
}

fn cpus_tree() -> DeviceTree {
    let cpu0 = node("cpu@0", vec![("reg", vec![0, 0, 0, 0])], vec![]);
    let cpus = node("cpus", vec![], vec![cpu0]);
    tree(node("", vec![], vec![cpus]))
}

#[test]
fn property_decodes_as_string() {
    let n = node("", vec![("compatible", vec![b'a', b'r', b'm', 0])], vec![]);
    assert_eq!(n.prop_str("compatible"), Ok("arm"));
    assert_eq!(n.prop_raw("compatible").unwrap().len(), 4);
    assert!(n.has_prop("compatible"));
    assert!(!n.has_prop("missing"));
}

#[test]
fn property_decodes_as_number() {
    let n = node("", vec![("reg", vec![0x00, 0x00, 0x10, 0x00])], vec![]);
    assert_eq!(n.prop_u32("reg"), Ok(0x1000));
    assert_eq!(
        n.prop_u64("reg"),
        Err(PropError::SliceReadError(SliceReadError::UnexpectedEndOfInput))
    );
}

#[test]
fn number_is_read_from_the_first_bytes() {
    let n = node("", vec![("reg", vec![1, 2, 3, 4, 5, 6, 7, 8, 9])], vec![]);
    assert_eq!(n.prop_u32("reg"), Ok(0x01020304));
    assert_eq!(n.prop_u64("reg"), Ok(0x0102030405060708));
    let n = node("", vec![("reg", vec![1, 2, 3])], vec![]);
    assert_eq!(
        n.prop_u32("reg"),
        Err(PropError::SliceReadError(SliceReadError::UnexpectedEndOfInput))
    );
}

#[test]
fn missing_property_is_not_found() {
    let n = node("", vec![("reg", vec![0])], vec![]);
    assert_eq!(n.prop_raw("size"), None);
    assert_eq!(n.prop_str("size"), Err(PropError::NotFound));
    assert_eq!(n.prop_u32("size"), Err(PropError::NotFound));
    assert_eq!(n.prop_u64("size"), Err(PropError::NotFound));
}

#[test]
fn string_of_a_single_zero_byte_is_empty() {
    let n = node("", vec![("status", vec![0])], vec![]);
    assert_eq!(n.prop_str("status"), Ok(""));
}

#[test]
fn string_without_zero_byte_is_rejected() {
    let n = node("", vec![("status", vec![b'o', b'k']), ("none", vec![])], vec![]);
    assert_eq!(n.prop_str("status"), Err(PropError::Missing0));
    assert_eq!(n.prop_str("none"), Err(PropError::Missing0));
}

#[test]
fn string_that_is_not_utf8_is_rejected() {
    let n = node("", vec![("status", vec![0xff, 0])], vec![]);
    assert_eq!(n.prop_str("status"), Err(PropError::Utf8Error));
}

#[test]
fn string_keeps_inner_zero_bytes() {
    let n = node("", vec![("list", vec![b'a', 0, b'b', 0])], vec![]);
    assert_eq!(n.prop_str("list"), Ok("a\0b"));
}

#[test]
fn first_property_of_a_name_wins() {
    let n = node("", vec![("reg", vec![0, 0, 0, 1]), ("reg", vec![0, 0, 0, 2])], vec![]);
    assert_eq!(n.prop_u32("reg"), Ok(1));
    assert_eq!(n.prop_raw("reg"), Some(&vec![0, 0, 0, 1]));
}

#[test]
fn path_lookup() {
    let t = cpus_tree();
    assert_eq!(t.find("/cpus"), Some(&t.root.children[0]));
    assert_eq!(t.find("/cpus/cpu@0"), Some(&t.root.children[0].children[0]));
    assert_eq!(t.find("/missing"), None);
    assert_eq!(t.find("cpus"), None);
    assert_eq!(t.find(""), None);
    assert_eq!(t.find("/cpus/missing"), None);
    assert_eq!(t.find("/cpus/cpu@0/deeper"), None);
}

#[test]
fn slash_alone_finds_a_child_with_empty_name() {
    let t = cpus_tree();
    assert_eq!(t.find("/"), None);
    let inner = node("", vec![("x", vec![1])], vec![]);
    let other = node("", vec![("x", vec![2])], vec![]);
    let t = tree(node("", vec![], vec![node("a", vec![], vec![]), inner, other]));
    assert_eq!(t.find("/"), Some(&t.root.children[1]));
    assert_eq!(t.find("/").unwrap().prop_raw("x"), Some(&vec![1]));
}

#[test]
fn relative_lookup() {
    let t = cpus_tree();
    let root = &t.root;
    assert_eq!(root.find(""), Some(root));
    assert_eq!(root.find("cpus"), Some(&root.children[0]));
    assert_eq!(root.find("cpus/"), Some(&root.children[0]));
    assert_eq!(root.find("cpus/cpu@0"), Some(&root.children[0].children[0]));
    assert_eq!(root.find("cpu@0"), None);
    assert_eq!(root.descend(""), None);
    assert_eq!(root.descend("cpus"), Some(&root.children[0]));
}

#[test]
fn found_node_finds_itself_by_the_empty_path() {
    let t = cpus_tree();
    let found = t.find("/cpus/cpu@0").unwrap();
    assert_eq!(found.find(""), Some(found));
    let found = t.root.find("cpus").unwrap();
    assert_eq!(found.find(""), t.root.find("cpus"));
}

#[test]
fn first_child_of_a_name_wins_and_is_not_given_up() {
    let first = node("a", vec![], vec![]);
    let second = node("a", vec![], vec![node("b", vec![], vec![])]);
    let t = tree(node("", vec![], vec![first, second]));
    assert_eq!(t.find("/a"), Some(&t.root.children[0]));
    assert_eq!(t.find("/a/b"), None);
}

#[test]
fn lookup_with_names_that_are_not_ascii() {
    let t = tree(node("", vec![], vec![node("gerät", vec![], vec![node("ü", vec![], vec![])])]));
    assert_eq!(t.find("/gerät/ü"), Some(&t.root.children[0].children[0]));
    assert_eq!(t.find("/gerat"), None);
}
