use dns_filter::text::{bytes_eq, eq_ignore_case, split_bytes, to_lower};
use dns_filter::filter::hasher::{BuildMurmur3Hasher, Murmur3Hasher};
use dns_filter::filter::tree::{Node, NodeTree};
use dns_filter::filter::{distinct_text_lines, normalize_bytes, pattern_nodes, BLContent, Blacklist};
use std::hash::{BuildHasher, Hasher};

fn lines(text: &[&str]) -> Vec<String> {
    text.iter().map(|s| s.to_string()).collect()
}

fn loaded(text: &[&str]) -> BLContent {
    let mut list = BLContent::new();
    list.cache(lines(text));
    list
}

fn blocked(list: &BLContent, name: &str) -> bool {
    list.is_blocked(&name.to_string())
}

fn labels(name: &str) -> Vec<Vec<u8>> {
    name.split('.').map(|s| s.as_bytes().to_vec()).collect()
}

fn label(name: &str, blocking: bool) -> Node {
    Node::Domain { name: name.as_bytes().to_vec(), blocking }
}

#[test]
fn an_empty_blocklist_blocks_nothing() {
    let list = BLContent::new();
    assert!(!blocked(&list, "example.com"));
    assert!(!blocked(&list, ""));
    assert!(!blocked(&list, "*"));
    let shared = Blacklist::new();
    assert!(!shared.is_blocked(&"example.com".to_string()));
}

#[test]
fn an_exact_pattern_blocks_that_name_only() {
    let list = loaded(&["ads.example.com"]);
    assert!(blocked(&list, "ads.example.com"));
    assert!(!blocked(&list, "example.com"));
    assert!(!blocked(&list, "com"));
    assert!(!blocked(&list, "www.ads.example.com"));
    assert!(!blocked(&list, "ads.example.org"));
    assert!(!blocked(&list, "xads.example.com"));
    assert!(!blocked(&list, "ads.example.com.evil"));
}

#[test]
fn case_and_a_final_dot_play_no_part() {
    let list = loaded(&["Ads.Example.COM."]);
    assert!(blocked(&list, "ads.example.com"));
    assert!(blocked(&list, "ADS.EXAMPLE.COM"));
    assert!(blocked(&list, "ads.example.com."));
    assert_eq!(blocked(&list, "Example.COM"), blocked(&list, "example.com"));
    let other = loaded(&["example.com"]);
    assert_eq!(blocked(&other, "Example.COM"), blocked(&other, "example.com"));
    assert!(blocked(&other, "Example.COM"));
    assert!(blocked(&other, "eXaMpLe.CoM."));
    assert!(!blocked(&other, "example.com.."));
}

#[test]
fn a_wildcard_blocks_everything_below_its_suffix() {
    let list = loaded(&["*.tracker.net"]);
    assert!(blocked(&list, "foo.tracker.net"));
    assert!(blocked(&list, "foo.bar.tracker.net"));
    assert!(blocked(&list, "a.b.c.d.tracker.net"));
    assert!(blocked(&list, "FOO.Tracker.NET."));
    assert!(blocked(&list, ".tracker.net"));
    assert!(blocked(&list, "*.tracker.net"));
    assert!(!blocked(&list, "tracker.net"));
    assert!(!blocked(&list, "net"));
    assert!(!blocked(&list, "foo.tracker.org"));
    assert!(!blocked(&list, "footracker.net"));
}

#[test]
fn a_wildcard_in_the_middle_blocks_what_reaches_it() {
    let list = loaded(&["ads.*.com"]);
    assert!(blocked(&list, "ads.example.com"));
    assert!(blocked(&list, "other.example.com"));
    assert!(blocked(&list, "example.com"));
    assert!(!blocked(&list, "com"));
    assert!(!blocked(&list, "example.org"));
    let top = loaded(&["*"]);
    assert!(blocked(&top, "anything"));
    assert!(blocked(&top, "any.thing"));
    assert!(blocked(&top, ""));
}

#[test]
fn comments_and_empty_lines_hold_no_pattern() {
    let list = loaded(&["# ads.example.com", "", "#", "tracker.net", "#*.com"]);
    assert!(!blocked(&list, "ads.example.com"));
    assert!(!blocked(&list, ""));
    assert!(!blocked(&list, "x.com"));
    assert!(blocked(&list, "tracker.net"));
    let spaced = loaded(&[" #not.a.comment"]);
    assert!(blocked(&spaced, " #not.a.comment"));
}

#[test]
fn a_label_becomes_terminal_and_stays_so() {
    let mut list = loaded(&["ads.example.com"]);
    assert!(!blocked(&list, "example.com"));
    list.cache(lines(&["example.com"]));
    assert!(blocked(&list, "example.com"));
    assert!(blocked(&list, "ads.example.com"));
    list.cache(lines(&["www.example.com"]));
    assert!(blocked(&list, "example.com"));
    assert!(blocked(&list, "www.example.com"));
    assert!(!blocked(&list, "mail.example.com"));
    let reversed = loaded(&["example.com", "ads.example.com"]);
    assert!(blocked(&reversed, "example.com"));
    assert!(blocked(&reversed, "ads.example.com"));
}

#[test]
fn cache_adds_and_update_replaces() {
    let mut list = loaded(&["a.com"]);
    list.cache(lines(&["b.com"]));
    assert!(blocked(&list, "a.com"));
    assert!(blocked(&list, "b.com"));
    list.update("vendor.one\nvendor.two\nvendor.one\n", "c.com\n# d.com\n\n*.e.com");
    assert!(!blocked(&list, "a.com"));
    assert!(!blocked(&list, "b.com"));
    assert!(blocked(&list, "c.com"));
    assert!(!blocked(&list, "d.com"));
    assert!(blocked(&list, "x.e.com"));
    assert!(list.is_vendor(&"vendor.one".to_string()));
    assert!(list.is_vendor(&"vendor.two".to_string()));
    assert!(list.is_vendor(&String::new()));
    assert!(!list.is_vendor(&"vendor.three".to_string()));
    let mut shared = Blacklist::new();
    shared.update("", "ads.example.com\n*.tracker.net\n");
    assert!(shared.is_blocked(&"ads.example.com".to_string()));
    assert!(shared.is_blocked(&"foo.bar.tracker.net".to_string()));
    assert!(!shared.is_blocked(&"tracker.net".to_string()));
    shared.update("", "");
    assert!(!shared.is_blocked(&"ads.example.com".to_string()));
}

#[test]
fn lines_are_split_at_line_feeds_only() {
    let mut list = BLContent::new();
    list.update("", "a.com\r\nb.com");
    assert!(!blocked(&list, "a.com"));
    assert!(blocked(&list, "a.com\r"));
    assert!(blocked(&list, "b.com"));
    assert_eq!(
        distinct_text_lines(b"x\ny\nx\n\ny"),
        vec![b"x".to_vec(), b"y".to_vec(), b"".to_vec()]
    );
}

#[test]
fn the_tree_takes_patterns_and_answers_queries() {
    let tree = NodeTree::new();
    assert!(!tree.is_branch_blocking(labels("example.com")));
    assert!(!tree.is_branch_blocking(vec![]));
    let tree = tree.branch(vec![label("ads", true), label("example", false), label("com", false)]);
    assert!(tree.is_branch_blocking(labels("ads.example.com")));
    assert!(!tree.is_branch_blocking(labels("example.com")));
    assert!(!tree.is_branch_blocking(labels("www.ads.example.com")));
    let tree = tree.branch(vec![label("example", true), label("com", false)]);
    assert!(tree.is_branch_blocking(labels("example.com")));
    assert!(tree.is_branch_blocking(labels("ads.example.com")));
    let tree = tree.branch(vec![label("example", false), label("com", false)]);
    assert!(tree.is_branch_blocking(labels("example.com")));
    let tree = tree.branch(vec![Node::Wildcard, label("tracker", false), label("net", false)]);
    assert!(tree.is_branch_blocking(labels("a.tracker.net")));
    assert!(tree.is_branch_blocking(labels("a.b.tracker.net")));
    assert!(!tree.is_branch_blocking(labels("tracker.net")));
    let tree = tree.branch(vec![]);
    assert!(tree.is_branch_blocking(labels("a.tracker.net")));
    assert!(!tree.is_branch_blocking(vec![]));
}

#[test]
fn nodes_are_the_same_by_name() {
    assert!(label("a", true) == label("a", false));
    assert!(label("a", true).same_as(&label("a", false)));
    assert!(label("a", true) != label("b", true));
    assert!(Node::Wildcard == Node::Wildcard);
    assert!(Node::Wildcard != label("*", true));
    assert!(label("a", true).is_blocking());
    assert!(!label("a", false).is_blocking());
    assert!(Node::Wildcard.is_blocking());
    let made: Node = b"com".to_vec().into();
    assert!(made == label("com", false));
    assert!(!made.is_blocking());
    assert_eq!(label("a", true).tag(), label("a", false).tag());
}

#[test]
fn patterns_are_parsed_label_by_label() {
    let nodes = pattern_nodes(b"*.Tracker.NET.");
    assert_eq!(nodes.len(), 3);
    assert!(nodes[0] == Node::Wildcard);
    assert!(nodes[1] == label("tracker", false));
    assert!(!nodes[1].is_blocking());
    assert!(nodes[2] == label("net", false));
    let nodes = pattern_nodes(b"ads.example.com");
    assert!(nodes[0] == label("ads", true));
    assert!(nodes[0].is_blocking());
    assert!(!nodes[1].is_blocking());
    assert!(!nodes[2].is_blocking());
    let nodes = pattern_nodes(b"**.com");
    assert!(nodes[0] == label("**", true));
    assert_eq!(normalize_bytes(b"A.b.C."), b"a.b.c".to_vec());
    assert_eq!(normalize_bytes(b"A.b.C.."), b"a.b.c.".to_vec());
    assert_eq!(normalize_bytes(b""), Vec::<u8>::new());
}

#[test]
fn text_helpers_do_what_they_say() {
    assert_eq!(split_bytes(b"a.b..c", b'.'), vec![b"a".to_vec(), b"b".to_vec(), vec![], b"c".to_vec()]);
    assert_eq!(split_bytes(b"", b'.'), vec![Vec::<u8>::new()]);
    assert_eq!(split_bytes(b".", b'.'), vec![Vec::<u8>::new(), Vec::<u8>::new()]);
    assert_eq!(split_bytes(b"abc", b'.'), vec![b"abc".to_vec()]);
    assert_eq!(to_lower(b"AbC-Z@[`{09"), b"abc-z@[`{09".to_vec());
    assert!(eq_ignore_case(b"Example.COM", b"example.com"));
    assert!(!eq_ignore_case(b"example.com", b"example.co"));
    assert!(!eq_ignore_case(b"a@", b"a`"));
    assert!(bytes_eq(b"abc", b"abc"));
    assert!(!bytes_eq(b"abc", b"abd"));
    assert!(!bytes_eq(b"abc", b"ab"));
}

#[test]
fn the_hasher_holds_the_murmur3_hash_of_what_was_written() {
    let builder = BuildMurmur3Hasher;
    let mut hasher: Murmur3Hasher = builder.build_hasher();
    assert_eq!(hasher.finish(), 0);
    hasher.write(b"example");
    assert_eq!(hasher.finish(), fastmurmur3::hash(b"example") as u64);
    assert_ne!(hasher.finish(), 0);
    hasher.write(b"com");
    assert_eq!(hasher.finish(), fastmurmur3::hash(b"com") as u64);
    let mut by_node = builder.build_hasher();
    Node::Wildcard.hash(&mut by_node);
    assert_eq!(by_node.finish(), fastmurmur3::hash(b"*") as u64);
    assert_eq!(label("com", true).tag(), fastmurmur3::hash(b"com") as u64);
}

#[test]
fn the_hasher_keeps_the_low_half_of_a_hash() {
    let mut hasher = BuildMurmur3Hasher.build_hasher();
    hasher.keep(0x0123_4567_89ab_cdef_fedc_ba98_7654_3210);
    assert_eq!(hasher.finish(), 0xfedc_ba98_7654_3210);
    hasher.keep(0x1_0000_0000_0000_0005);
    assert_eq!(hasher.finish(), 5);
    hasher.keep(u128::MAX);
    assert_eq!(hasher.finish(), u64::MAX);
    hasher.keep(0);
    assert_eq!(hasher.finish(), 0);
}

#[test]
fn a_node_is_hashed_by_its_name_or_a_star() {
    assert_eq!(label("com", true).identity_bytes(), b"com".to_vec());
    assert_eq!(label("com", false).identity_bytes(), b"com".to_vec());
    assert_eq!(label("", false).identity_bytes(), Vec::<u8>::new());
    assert_eq!(Node::Wildcard.identity_bytes(), b"*".to_vec());
    let mut by_node = BuildMurmur3Hasher.build_hasher();
    label("example", true).hash(&mut by_node);
    let mut by_bytes = BuildMurmur3Hasher.build_hasher();
    by_bytes.write(b"example");
    assert_eq!(by_node.finish(), by_bytes.finish());
    assert_eq!(label("example", false).tag(), by_bytes.finish());
}

#[test]
fn many_patterns_are_all_found() {
    let mut text = String::new();
    let mut i = 0;
    while i < 500 {
        text.push_str(&format!("host{}.zone{}.example\n", i, i % 7));
        i += 1;
    }
    let mut list = BLContent::new();
    list.update("", &text);
    let mut i = 0;
    while i < 500 {
        assert!(blocked(&list, &format!("HOST{}.zone{}.example", i, i % 7)));
        assert!(!blocked(&list, &format!("host{}.zone{}.example", i, (i + 1) % 7)));
        i += 1;
    }
    assert!(!blocked(&list, "zone1.example"));
}
