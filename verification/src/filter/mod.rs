//! The domain blocklist: patterns read from lines of text, and the question
//! whether a name is blocked.

pub mod hasher;
pub mod laws;
pub mod tree;

use crate::dns::name::{name_text, DOT};
use crate::filter::tree::{node_views, pattern_blocks, Node, NodeTree, NodeView, STAR};
use crate::text::{bytes_eq, copy_bytes, label_views, lower_bytes, split_bytes, split_on, to_lower};
use vstd::prelude::*;
use vstd::slice::slice_subrange;

verus! {

/// The byte that starts a comment line.
pub const HASH: u8 = 35;

/// The byte that ends a line.
pub const NEWLINE: u8 = 10;

/// The text without one dot at its end, if it has one there.
pub open spec fn strip_dot(s: Seq<u8>) -> Seq<u8> {
    if s.len() > 0 && s.last() == DOT {
        s.drop_last()
    } else {
        s
    }
}

/// The form in which names and patterns are compared: without a dot at the
/// end, and in lower case.
pub open spec fn normalize(s: Seq<u8>) -> Seq<u8> {
    lower_bytes(strip_dot(s))
}

/// The labels of a name, top-level label first.
pub open spec fn name_path(name: Seq<u8>) -> Seq<Seq<u8>> {
    split_on(normalize(name), DOT).reverse()
}

/// The node that a label of a pattern becomes: a star is a wildcard, and
/// the label written first is the one at which the pattern ends.
pub open spec fn pattern_node(label: Seq<u8>, first: bool) -> NodeView {
    if label == seq![STAR] {
        NodeView::Wildcard
    } else {
        NodeView::Domain { name: label, blocking: first }
    }
}

/// The nodes of the pattern that a line holds, in the order of the line.
pub open spec fn line_nodes(line: Seq<u8>) -> Seq<NodeView> {
    let labels = split_on(normalize(line), DOT);
    Seq::new(labels.len(), |i: int| pattern_node(labels[i], i == 0))
}

/// The pattern that a line holds, top-level position first.
pub open spec fn line_path(line: Seq<u8>) -> Seq<NodeView> {
    line_nodes(line).reverse()
}

/// A line that holds a pattern: not empty, and no comment.
pub open spec fn is_pattern_line(line: Seq<u8>) -> bool {
    line.len() > 0 && line[0] != HASH
}

/// The patterns that the lines hold, in the order of the lines.
pub open spec fn lines_paths(lines: Seq<Seq<u8>>) -> Seq<Seq<NodeView>>
    decreases lines.len(),
{
    if lines.len() == 0 {
        Seq::empty()
    } else if is_pattern_line(lines.last()) {
        lines_paths(lines.drop_last()).push(line_path(lines.last()))
    } else {
        lines_paths(lines.drop_last())
    }
}

/// One of the patterns blocks the name whose labels are `labels`, top-level
/// label first.
pub open spec fn any_blocks(paths: Seq<Seq<NodeView>>, labels: Seq<Seq<u8>>) -> bool {
    exists|i: int| 0 <= i < paths.len() && pattern_blocks(#[trigger] paths[i], labels)
}

/// The lines without those that came before already.
pub open spec fn distinct_lines(lines: Seq<Seq<u8>>) -> Seq<Seq<u8>>
    decreases lines.len(),
{
    if lines.len() == 0 {
        Seq::empty()
    } else if distinct_lines(lines.drop_last()).contains(lines.last()) {
        distinct_lines(lines.drop_last())
    } else {
        distinct_lines(lines.drop_last()).push(lines.last())
    }
}

/// The bytes of each line of text.
pub open spec fn line_texts(lines: Seq<String>) -> Seq<Seq<u8>> {
    Seq::new(lines.len(), |i: int| name_text(lines[i]@))
}

/// One more pattern blocks what the others block and what it blocks itself.
pub proof fn lemma_any_blocks_push(
    paths: Seq<Seq<NodeView>>,
    path: Seq<NodeView>,
    labels: Seq<Seq<u8>>,
)
    ensures
        any_blocks(paths.push(path), labels) == (any_blocks(paths, labels) || pattern_blocks(
            path,
            labels,
        )),
{
    let more = paths.push(path);
    if any_blocks(paths, labels) {
        let i = choose|i: int| 0 <= i < paths.len() && pattern_blocks(#[trigger] paths[i], labels);
        assert(more[i] == paths[i]);
    }
    if pattern_blocks(path, labels) {
        assert(more[paths.len() as int] == path);
    }
    if any_blocks(more, labels) {
        let i = choose|i: int| 0 <= i < more.len() && pattern_blocks(#[trigger] more[i], labels);
        if i < paths.len() {
            assert(more[i] == paths[i]);
        }
    }
}

/// The form in which names and patterns are compared.
pub fn normalize_bytes(text: &[u8]) -> (r: Vec<u8>)
    ensures
        r@ == normalize(text@),
{
    let n: usize = text.len();
    if n > 0 && text[n - 1] == DOT {
        assert(text@.subrange(0, n - 1) =~= text@.drop_last());
        to_lower(slice_subrange(text, 0, n - 1))
    } else {
        to_lower(text)
    }
}

/// The nodes of the pattern that a line holds, in the order of the line.
pub fn pattern_nodes(line: &[u8]) -> (r: Vec<Node>)
    ensures
        node_views(r@) == line_nodes(line@),
{
    let text = normalize_bytes(line);
    let mut labels = split_bytes(text.as_slice(), DOT);
    let ghost all = label_views(labels@);
    let n: usize = labels.len();
    let star: [u8; 1] = [STAR];
    let mut rev: Vec<Node> = Vec::new();
    assert(star@ =~= seq![STAR]);
    assert(label_views(labels@) =~= all.subrange(0, n as int));
    while labels.len() > 0
        invariant
            labels@.len() <= n,
            n == all.len(),
            star@ == seq![STAR],
            label_views(labels@) == all.subrange(0, labels@.len() as int),
            rev@.len() == n - labels@.len(),
            forall|j: int|
                0 <= j < rev@.len() ==> (#[trigger] rev@[j])@ == pattern_node(
                    all[n - 1 - j],
                    n - 1 - j == 0,
                ),
        decreases labels@.len(),
    {
        let ghost before = labels@;
        let k: usize = labels.len() - 1;
        let label = labels.pop().unwrap();
        proof {
            assert(label@ == label_views(before)[k as int]);
            assert(label_views(labels@) =~= all.subrange(0, k as int));
            assert(star@ =~= seq![STAR]);
            assert(all.subrange(0, before.len() as int)[k as int] == all[k as int]);
        }
        let node = if bytes_eq(label.as_slice(), star.as_slice()) {
            Node::Wildcard
        } else {
            Node::Domain { name: label, blocking: k == 0 }
        };
        proof {
            assert(node@ == pattern_node(all[k as int], k == 0));
            assert forall|j: int| 0 <= j < rev@.len() + 1 implies (#[trigger] rev@.push(node)[j])@
                == pattern_node(all[n - 1 - j], n - 1 - j == 0) by {
                if j < rev@.len() {
                    assert(rev@.push(node)[j] == rev@[j]);
                }
            }
        }
        rev.push(node);
    }
    let mut out: Vec<Node> = Vec::new();
    while rev.len() > 0
        invariant
            rev@.len() <= n,
            n == all.len(),
            out@.len() == n - rev@.len(),
            forall|j: int|
                0 <= j < rev@.len() ==> (#[trigger] rev@[j])@ == pattern_node(
                    all[n - 1 - j],
                    n - 1 - j == 0,
                ),
            forall|j: int| 0 <= j < out@.len() ==> (#[trigger] out@[j])@ == pattern_node(all[j], j == 0),
        decreases rev@.len(),
    {
        let node = rev.pop().unwrap();
        out.push(node);
    }
    assert(node_views(out@) =~= line_nodes(line@));
    out
}

/// Whether `lines` holds the text `line`.
fn holds_line(lines: &Vec<Vec<u8>>, line: &[u8]) -> (r: bool)
    ensures
        r == label_views(lines@).contains(line@),
{
    let mut i: usize = 0;
    while i < lines.len()
        invariant
            i <= lines.len(),
            forall|j: int| 0 <= j < i ==> label_views(lines@)[j] != line@,
        decreases lines.len() - i,
    {
        if bytes_eq(lines[i].as_slice(), line) {
            assert(label_views(lines@)[i as int] == line@);
            return true;
        }
        i += 1;
    }
    false
}

/// The lines of a text, without those that came before already.
pub fn distinct_text_lines(text: &[u8]) -> (r: Vec<Vec<u8>>)
    ensures
        label_views(r@) == distinct_lines(split_on(text@, NEWLINE)),
{
    let mut lines = split_bytes(text, NEWLINE);
    let ghost all = label_views(lines@);
    let n: usize = lines.len();
    let mut out: Vec<Vec<u8>> = Vec::new();
    let mut i: usize = 0;
    assert(all.subrange(0, 0) =~= Seq::<Seq<u8>>::empty());
    while i < n
        invariant
            i <= n,
            n == lines@.len(),
            all == label_views(lines@),
            label_views(out@) == distinct_lines(all.subrange(0, i as int)),
        decreases n - i,
    {
        proof {
            let next = all.subrange(0, i + 1);
            assert(next.drop_last() =~= all.subrange(0, i as int));
            assert(next.last() == lines@[i as int]@);
        }
        if !holds_line(&out, lines[i].as_slice()) {
            let line = copy_bytes(lines[i].as_slice());
            proof {
                assert(label_views(out@.push(line)) =~= label_views(out@).push(line@));
            }
            out.push(line);
        }
        i += 1;
    }
    assert(all.subrange(0, n as int) =~= all);
    out
}

/// The patterns that were loaded, and the vendor lines beside them.
pub struct BLContent {
    tree: NodeTree,
    vendors: Vec<Vec<u8>>,
    loaded: Ghost<Seq<Seq<NodeView>>>,
}

impl BLContent {
    #[verifier::type_invariant]
    spec fn tree_holds_loaded(&self) -> bool {
        forall|labels: Seq<Seq<u8>>| #[trigger]
            self.tree.blocks(labels) == any_blocks(self.loaded@, labels)
    }

    /// The patterns that were loaded, in the order in which they came, each
    /// top-level position first.
    pub closed spec fn paths(&self) -> Seq<Seq<NodeView>> {
        self.loaded@
    }

    /// The vendor lines that were loaded, each once.
    pub closed spec fn vendor_lines(&self) -> Seq<Seq<u8>> {
        label_views(self.vendors@)
    }

    /// Whether a loaded pattern blocks the name `name`.
    pub open spec fn blocks(&self, name: Seq<u8>) -> bool {
        any_blocks(self.paths(), name_path(name))
    }

    /// A blocklist without patterns.
    pub fn new() -> (r: Self)
        ensures
            r.paths() == Seq::<Seq<NodeView>>::empty(),
            r.vendor_lines() == Seq::<Seq<u8>>::empty(),
    {
        let r = BLContent { tree: NodeTree::new(), vendors: Vec::new(), loaded: Ghost(Seq::empty()) };
        assert(r.vendor_lines() =~= Seq::<Seq<u8>>::empty());
        r
    }

    /// Whether the name is blocked. Case and a dot at the end play no part.
    pub fn is_blocked(&self, value: &String) -> (r: bool)
        ensures
            r == self.blocks(name_text(value@)),
    {
        proof {
            use_type_invariant(self);
        }
        let text = normalize_bytes(value.as_str().as_bytes());
        let labels = split_bytes(text.as_slice(), DOT);
        self.tree.is_branch_blocking(labels)
    }

    /// Whether `line` is one of the vendor lines.
    pub fn is_vendor(&self, line: &String) -> (r: bool)
        ensures
            r == self.vendor_lines().contains(name_text(line@)),
    {
        holds_line(&self.vendors, line.as_str().as_bytes())
    }

    /// Adds the patterns that the lines hold to those loaded before. Empty
    /// lines and lines that start with `#` hold none.
    pub fn cache(&mut self, lines: Vec<String>)
        ensures
            final(self).paths() == old(self).paths() + lines_paths(line_texts(lines@)),
            final(self).vendor_lines() == old(self).vendor_lines(),
    {
        let mut texts: Vec<Vec<u8>> = Vec::new();
        let mut i: usize = 0;
        while i < lines.len()
            invariant
                i <= lines@.len(),
                texts@.len() == i,
                label_views(texts@) == line_texts(lines@).subrange(0, i as int),
            decreases lines@.len() - i,
        {
            let text = copy_bytes(lines[i].as_str().as_bytes());
            proof {
                assert(text@ == name_text(lines@[i as int]@));
                let grown = label_views(texts@.push(text));
                let want = line_texts(lines@).subrange(0, i + 1);
                assert(grown.len() == want.len());
                assert forall|j: int| 0 <= j < i + 1 implies grown[j] == want[j] by {
                    assert(want[j] == line_texts(lines@)[j]);
                    assert(grown[j] == texts@.push(text)[j]@);
                    if j < i {
                        assert(texts@.push(text)[j] == texts@[j]);
                        assert(label_views(texts@)[j] == texts@[j]@);
                        assert(line_texts(lines@).subrange(0, i as int)[j] == line_texts(
                            lines@,
                        )[j]);
                    } else {
                        assert(texts@.push(text)[j] == text);
                    }
                }
                assert(grown =~= want);
            }
            texts.push(text);
            i += 1;
        }
        assert(line_texts(lines@).subrange(0, lines@.len() as int) =~= line_texts(lines@));
        self.cache_texts(&texts);
    }

    /// Loads anew: the vendor lines of the one text, and the patterns that
    /// the lines of the other hold. What was loaded before is gone.
    pub fn update(&mut self, vendors: &str, blacklist: &str)
        ensures
            final(self).paths() == lines_paths(split_on(name_text(blacklist@), NEWLINE)),
            final(self).vendor_lines() == distinct_lines(split_on(name_text(vendors@), NEWLINE)),
    {
        let vendor_lines = distinct_text_lines(vendors.as_bytes());
        let lines = split_bytes(blacklist.as_bytes(), NEWLINE);
        let fresh = BLContent { tree: NodeTree::new(), vendors: vendor_lines, loaded: Ghost(Seq::empty()) };
        *self = fresh;
        self.cache_texts(&lines);
        assert(Seq::<Seq<NodeView>>::empty() + lines_paths(label_views(lines@)) =~= lines_paths(
            label_views(lines@),
        ));
    }

    /// Adds the patterns that the lines hold to those loaded before, the
    /// lines given as bytes.
    pub fn cache_texts(&mut self, lines: &Vec<Vec<u8>>)
        ensures
            final(self).paths() == old(self).paths() + lines_paths(label_views(lines@)),
            final(self).vendor_lines() == old(self).vendor_lines(),
    {
        let mut taken = BLContent::new();
        core::mem::swap(self, &mut taken);
        proof {
            use_type_invariant(&taken);
        }
        let BLContent { tree, vendors, loaded } = taken;
        let mut tree = tree;
        let ghost first = loaded@;
        let ghost mut added = loaded@;
        let ghost texts = label_views(lines@);
        let mut i: usize = 0;
        proof {
            assert(texts.subrange(0, 0) =~= Seq::<Seq<u8>>::empty());
            assert(first + lines_paths(texts.subrange(0, 0)) =~= first);
        }
        while i < lines.len()
            invariant
                i <= lines@.len(),
                texts == label_views(lines@),
                added == first + lines_paths(texts.subrange(0, i as int)),
                forall|labels: Seq<Seq<u8>>| #[trigger]
                    tree.blocks(labels) == any_blocks(added, labels),
            decreases lines@.len() - i,
        {
            let line = lines[i].as_slice();
            proof {
                let next = texts.subrange(0, i + 1);
                assert(next.drop_last() =~= texts.subrange(0, i as int));
                assert(next.last() == line@);
            }
            if line.len() > 0 && line[0] != HASH {
                let nodes = pattern_nodes(line);
                let ghost path = line_path(line@);
                let ghost prior = tree;
                tree = tree.branch(nodes);
                proof {
                    assert forall|labels: Seq<Seq<u8>>| #[trigger]
                        tree.blocks(labels) == any_blocks(added.push(path), labels) by {
                        lemma_any_blocks_push(added, path, labels);
                        assert(prior.blocks(labels) == any_blocks(added, labels));
                    }
                    assert(first + lines_paths(texts.subrange(0, i as int)).push(path) =~= added.push(
                        path,
                    ));
                    added = added.push(path);
                }
            }
            i += 1;
        }
        proof {
            assert(texts.subrange(0, lines@.len() as int) =~= texts);
        }
        *self = BLContent { tree, vendors, loaded: Ghost(added) };
    }
}

/// The blocklist that the listeners share. It is loaded as a whole: who
/// asks sees what was loaded before or what was loaded after, nothing in
/// between.
pub struct Blacklist {
    content: BLContent,
}

impl Blacklist {
    /// What is loaded.
    pub closed spec fn content(&self) -> BLContent {
        self.content
    }

    /// Whether a loaded pattern blocks the name `name`.
    pub open spec fn blocks(&self, name: Seq<u8>) -> bool {
        self.content().blocks(name)
    }

    /// A blocklist without patterns.
    pub fn new() -> (r: Self)
        ensures
            r.content().paths() == Seq::<Seq<NodeView>>::empty(),
            r.content().vendor_lines() == Seq::<Seq<u8>>::empty(),
    {
        Blacklist { content: BLContent::new() }
    }

    /// Whether the name is blocked. Case and a dot at the end play no part.
    pub fn is_blocked(&self, value: &String) -> (r: bool)
        ensures
            r == self.blocks(name_text(value@)),
    {
        self.content.is_blocked(value)
    }

    /// Loads anew from the text of the vendor list and the text of the
    /// blocklist, one entry on each line.
    pub fn update(&mut self, vendors: &str, blacklist: &str)
        ensures
            final(self).content().paths() == lines_paths(
                split_on(name_text(blacklist@), NEWLINE),
            ),
            final(self).content().vendor_lines() == distinct_lines(
                split_on(name_text(vendors@), NEWLINE),
            ),
    {
        let mut fresh = BLContent::new();
        fresh.update(vendors, blacklist);
        self.content = fresh;
    }
}

} // verus!
