use wsbrd_cli::hex::format_byte_array;
use wsbrd_cli::order::{bytes_eq, bytes_le};
use wsbrd_cli::tree::{find_children, is_parent, print_rpl_tree, render, Node};

const R: u8 = 0x01;
const A: u8 = 0x0a;
const B: u8 = 0x0b;
const C: u8 = 0x0c;

fn node(address: u8, parent: Option<u8>) -> Node {
    Node { address: vec![address], parent: parent.map(|p| vec![p]) }
}

#[test]
fn hex_colon_format() {
    assert_eq!(format_byte_array(&vec![0xaa, 0xbb, 0x0c, 0x00, 0xff]), "aa:bb:0c:00:ff");
    assert_eq!(format_byte_array(&vec![0x07]), "07");
    assert_eq!(format_byte_array(&vec![]), "");
    assert_eq!(
        format_byte_array(&vec![0xaa, 0xbb, 0xcc, 0xdd, 0xee, 0xff, 0x00, 0x11]),
        "aa:bb:cc:dd:ee:ff:00:11"
    );
}

#[test]
fn byte_order_and_equality() {
    assert!(bytes_le(&vec![1, 2], &vec![1, 3]));
    assert!(bytes_le(&vec![1, 2], &vec![1, 2, 0]));
    assert!(!bytes_le(&vec![1, 2, 0], &vec![1, 2]));
    assert!(bytes_le(&vec![], &vec![]));
    assert!(!bytes_le(&vec![2], &vec![1, 9]));
    assert!(bytes_eq(&vec![4, 5], &vec![4, 5]));
    assert!(!bytes_eq(&vec![4, 5], &vec![4]));
    assert!(!bytes_eq(&vec![4, 5], &vec![4, 6]));
}

#[test]
fn parent_match() {
    assert!(is_parent(&node(A, Some(R)), &vec![R]));
    assert!(!is_parent(&node(A, Some(B)), &vec![R]));
    assert!(!is_parent(&node(A, None), &vec![R]));
    assert!(!is_parent(&node(A, Some(R)), &vec![R, 0]));
}

#[test]
fn children_sorted() {
    let nodes = vec![node(C, Some(R)), node(A, None), node(B, Some(R)), node(A, Some(B))];
    let kids = find_children(&nodes, &vec![R]);
    assert_eq!(kids, vec![&vec![B], &vec![C]]);
    assert_eq!(find_children(&nodes, &vec![B]), vec![&vec![A]]);
    assert!(find_children(&nodes, &vec![A]).is_empty());
}

#[test]
fn linear_chain() {
    let nodes = vec![node(A, Some(R)), node(B, Some(A))];
    assert_eq!(render(&nodes, &vec![R]), vec!["  `- 0a", "       `- 0b"]);
}

#[test]
fn fan_out_ordering() {
    let nodes = vec![node(C, Some(R)), node(B, Some(R))];
    assert_eq!(render(&nodes, &vec![R]), vec!["  |- 0b", "  `- 0c"]);
    let swapped = vec![node(B, Some(R)), node(C, Some(R))];
    assert_eq!(render(&swapped, &vec![R]), vec!["  |- 0b", "  `- 0c"]);
}

#[test]
fn self_loop() {
    let nodes = vec![node(A, Some(A)), node(A, Some(R))];
    assert_eq!(render(&nodes, &vec![R]), vec!["  `- 0a", "       `- 0a (loop!)"]);
}

#[test]
fn two_node_cycle() {
    let nodes = vec![node(A, Some(R)), node(B, Some(A)), node(A, Some(B))];
    assert_eq!(
        render(&nodes, &vec![R]),
        vec!["  `- 0a", "       `- 0b", "            `- 0a (loop!)"]
    );
}

#[test]
fn cycle_away_from_root() {
    let nodes = vec![node(A, Some(B)), node(B, Some(A))];
    assert!(render(&nodes, &vec![R]).is_empty());
    assert_eq!(render(&nodes, &vec![A]), vec!["  `- 0b", "       `- 0a (loop!)"]);
}

#[test]
fn missing_parent_absent() {
    let nodes = vec![node(A, Some(R)), node(B, None), node(C, Some(A))];
    assert_eq!(render(&nodes, &vec![R]), vec!["  `- 0a", "       `- 0c"]);
}

#[test]
fn empty_input() {
    assert!(render(&vec![], &vec![R]).is_empty());
    let nodes = vec![node(A, Some(B)), node(B, None)];
    assert!(render(&nodes, &vec![R]).is_empty());
}

#[test]
fn nested_rule_under_non_last() {
    let nodes = vec![
        node(A, Some(R)),
        node(B, Some(R)),
        node(C, Some(A)),
        node(0x0d, Some(B)),
    ];
    assert_eq!(
        render(&nodes, &vec![R]),
        vec!["  |- 0a", "  |    `- 0c", "  `- 0b", "       `- 0d"]
    );
}

#[test]
fn render_is_repeatable_and_order_free() {
    let a = vec![node(A, Some(R)), node(B, Some(R)), node(C, Some(B)), node(0x0d, Some(R))];
    let b = vec![node(0x0d, Some(R)), node(C, Some(B)), node(B, Some(R)), node(A, Some(R))];
    let first = render(&a, &vec![R]);
    assert_eq!(first, render(&a, &vec![R]));
    assert_eq!(first, render(&b, &vec![R]));
    assert_eq!(first, vec!["  |- 0a", "  |- 0b", "  |    `- 0c", "  `- 0d"]);
}

#[test]
fn print_with_ancestors_and_sink() {
    let nodes = vec![node(A, Some(R)), node(R, Some(A))];
    let a = vec![A];
    let parents: Vec<&Vec<u8>> = vec![&a];
    let mut out = vec![String::from("header")];
    print_rpl_tree(&nodes, &parents, &vec![R], "> ", &mut out);
    assert_eq!(out, vec!["header", "> `- 0a (loop!)"]);
}

#[test]
fn long_addresses() {
    let root = vec![0xaa, 0xbb, 0xcc, 0xdd, 0xee, 0xff, 0x00, 0x11];
    let n = Node { address: vec![0, 1, 2, 3, 4, 5, 6, 7], parent: Some(root.clone()) };
    assert_eq!(render(&vec![n], &root), vec!["  `- 00:01:02:03:04:05:06:07"]);
}
