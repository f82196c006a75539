//! What holds of every blocklist: case plays no part, and a wildcard pattern
//! blocks whatever lies below its suffix.

use crate::dns::name::DOT;
use crate::filter::tree::{pattern_blocks, NodeView, STAR};
use crate::filter::{
    is_pattern_line, line_nodes, line_path, lines_paths, name_path, normalize,
    pattern_node, strip_dot, BLContent,
};
use crate::text::{
    first_byte, lemma_first_byte, lemma_first_byte_is, lemma_split_pieces, lower_byte, lower_bytes,
    split_on,
};
use vstd::prelude::*;

verus! {

/// Lower case leaves dots where they are and makes no new ones.
pub proof fn lemma_lower_keeps_dots(b: u8)
    ensures
        (lower_byte(b) == DOT) == (b == DOT),
{
}

/// Texts that are the same in lower case are the same in the form in which
/// names are compared.
pub proof fn lemma_normalize_ignores_case(a: Seq<u8>, b: Seq<u8>)
    requires
        lower_bytes(a) == lower_bytes(b),
    ensures
        normalize(a) == normalize(b),
{
    let la = lower_bytes(a);
    let lb = lower_bytes(b);
    assert(a.len() == la.len());
    assert(b.len() == lb.len());
    let n = a.len() as int;
    assert forall|i: int| 0 <= i < n implies lower_byte(a[i]) == lower_byte(b[i]) by {
        assert(la[i] == lower_byte(a[i]));
        assert(lb[i] == lower_byte(b[i]));
    }
    if n > 0 {
        lemma_lower_keeps_dots(a[n - 1]);
        lemma_lower_keeps_dots(b[n - 1]);
        assert(lower_byte(a[n - 1]) == lower_byte(b[n - 1]));
        assert((a.last() == DOT) == (b.last() == DOT));
        let sa = strip_dot(a);
        let sb = strip_dot(b);
        assert(sa.len() == sb.len());
        assert forall|i: int| 0 <= i < sa.len() implies lower_bytes(sa)[i] == lower_bytes(sb)[i] by {
            assert(sa[i] == a[i]);
            assert(sb[i] == b[i]);
        }
        assert(normalize(a) =~= normalize(b));
    } else {
        assert(normalize(a) =~= normalize(b));
    }
}

/// Names that differ only in the case of their letters are blocked alike.
pub proof fn lemma_case_insensitive(list: BLContent, a: Seq<u8>, b: Seq<u8>)
    requires
        lower_bytes(a) == lower_bytes(b),
    ensures
        list.blocks(a) == list.blocks(b),
{
    lemma_normalize_ignores_case(a, b);
}

/// A name is blocked as its lower-case form is.
pub proof fn lemma_blocks_lower(list: BLContent, name: Seq<u8>)
    ensures
        list.blocks(name) == list.blocks(lower_bytes(name)),
{
    assert(lower_bytes(lower_bytes(name)) =~= lower_bytes(name));
    lemma_case_insensitive(list, name, lower_bytes(name));
}

/// The pieces of two texts with a dot between them are the pieces of the one
/// and then the pieces of the other.
pub proof fn lemma_split_concat(a: Seq<u8>, b: Seq<u8>)
    ensures
        split_on(a + seq![DOT] + b, DOT) == split_on(a, DOT) + split_on(b, DOT),
    decreases a.len(),
{
    let whole = a + seq![DOT] + b;
    lemma_first_byte(a, DOT);
    let k = first_byte(a, DOT);
    if k < a.len() {
        let rest = a.subrange(k + 1, a.len() as int);
        assert forall|i: int| 0 <= i < k implies #[trigger] whole[i] != DOT by {
            assert(a[i] != DOT);
        }
        assert(whole[k] == a[k]);
        lemma_first_byte_is(whole, DOT, k);
        assert(whole.subrange(0, k) =~= a.subrange(0, k));
        assert(whole.subrange(k + 1, whole.len() as int) =~= rest + seq![DOT] + b);
        lemma_split_concat(rest, b);
        assert(split_on(whole, DOT) =~= split_on(a, DOT) + split_on(b, DOT));
    } else {
        let n = a.len() as int;
        assert forall|i: int| 0 <= i < n implies #[trigger] whole[i] != DOT by {
            assert(a[i] != DOT);
        }
        assert(whole[n] == DOT);
        lemma_first_byte_is(whole, DOT, n);
        assert(whole.subrange(0, n) =~= a);
        assert(whole.subrange(n + 1, whole.len() as int) =~= b);
        assert(split_on(a, DOT) =~= seq![a]);
    }
}

/// A pattern blocks a name that meets it label by label up to a wildcard,
/// with a label of the name left for the wildcard.
pub proof fn lemma_blocked_at_wildcard(path: Seq<NodeView>, labels: Seq<Seq<u8>>, k: int)
    requires
        0 <= k < path.len(),
        k < labels.len(),
        path[k] is Wildcard,
        forall|j: int|
            0 <= j < k ==> (#[trigger] path[j] is Wildcard || path[j] == (NodeView::Domain {
                name: labels[j],
                blocking: false,
            })),
    ensures
        pattern_blocks(path, labels),
    decreases k,
{
    if k > 0 && !(path[0] is Wildcard) {
        let p = path.drop_first();
        let l = labels.drop_first();
        assert forall|j: int| 0 <= j < k - 1 implies (#[trigger] p[j] is Wildcard || p[j] == (
        NodeView::Domain { name: l[j], blocking: false })) by {
            assert(p[j] == path[j + 1]);
            assert(l[j] == labels[j + 1]);
        }
        lemma_blocked_at_wildcard(p, l, k - 1);
    }
}

/// Lower case of two texts put together is their lower cases put together.
pub proof fn lemma_lower_concat(a: Seq<u8>, b: Seq<u8>)
    ensures
        lower_bytes(a + b) == lower_bytes(a) + lower_bytes(b),
{
    assert(lower_bytes(a + b) =~= lower_bytes(a) + lower_bytes(b));
}

/// The pattern `*.suffix` blocks every name `x.suffix`, whatever `x` is.
pub proof fn lemma_wildcard_blocks(suffix: Seq<u8>, x: Seq<u8>)
    ensures
        pattern_blocks(
            line_path(seq![STAR, DOT] + suffix),
            name_path(x + seq![DOT] + suffix),
        ),
{
    let line = seq![STAR, DOT] + suffix;
    let name = x + seq![DOT] + suffix;
    let star = seq![STAR];
    assert(lower_bytes(star) =~= star);
    assert(lower_bytes(seq![DOT]) =~= seq![DOT]);
    lemma_split_pieces(lower_bytes(x), DOT);
    let xs = split_on(lower_bytes(x), DOT);
    assert(split_on(star, DOT) =~= seq![star]) by {
        assert(star[0] != DOT);
        lemma_first_byte_is(star, DOT, 1);
    }
    if suffix.len() == 0 {
        assert(strip_dot(line) =~= star);
        assert(strip_dot(name) =~= x);
        let path = line_path(line);
        assert(line_nodes(line).len() == 1);
        assert(line_nodes(line)[0] == pattern_node(star, true));
        assert(path[0] == NodeView::Wildcard);
        let labels = name_path(name);
        assert(labels.len() == xs.len());
        lemma_blocked_at_wildcard(path, labels, 0);
    } else {
        let f = normalize(suffix);
        let tail = strip_dot(suffix);
        assert(strip_dot(line) =~= seq![STAR, DOT] + tail);
        assert(strip_dot(name) =~= x + seq![DOT] + tail);
        assert(seq![STAR, DOT] + tail =~= star + seq![DOT] + tail);
        lemma_lower_concat(star + seq![DOT], tail);
        lemma_lower_concat(star, seq![DOT]);
        lemma_lower_concat(x + seq![DOT], tail);
        lemma_lower_concat(x, seq![DOT]);
        assert(normalize(line) == star + seq![DOT] + f);
        assert(normalize(name) == lower_bytes(x) + seq![DOT] + f);
        lemma_split_concat(star, f);
        lemma_split_concat(lower_bytes(x), f);
        lemma_split_pieces(f, DOT);
        let fs = split_on(f, DOT);
        let m = fs.len() as int;
        let written = split_on(normalize(line), DOT);
        assert(written =~= seq![star] + fs);
        let nodes = line_nodes(line);
        let path = line_path(line);
        let labels = name_path(name);
        assert(split_on(normalize(name), DOT) =~= xs + fs);
        assert(path.len() == m + 1);
        assert(labels.len() == xs.len() + m);
        assert(path[m] == nodes[0]);
        assert(nodes[0] == pattern_node(written[0], true));
        assert(path[m] is Wildcard);
        assert forall|j: int| 0 <= j < m implies (#[trigger] path[j] is Wildcard || path[j] == (
        NodeView::Domain { name: labels[j], blocking: false })) by {
            assert(path[j] == nodes[m - j]);
            assert(nodes[m - j] == pattern_node(written[m - j], false));
            assert(written[m - j] == fs[m - j - 1]);
            assert(labels[j] == (xs + fs)[xs.len() + m - 1 - j]);
            assert((xs + fs)[xs.len() + m - 1 - j] == fs[m - 1 - j]);
        }
        lemma_blocked_at_wildcard(path, labels, m);
    }
}

/// Where the pattern `*.suffix` is loaded, every name `x.suffix` is blocked.
pub proof fn lemma_wildcard_dominance(list: BLContent, suffix: Seq<u8>, x: Seq<u8>)
    requires
        list.paths().contains(line_path(seq![STAR, DOT] + suffix)),
    ensures
        list.blocks(x + seq![DOT] + suffix),
{
    lemma_wildcard_blocks(suffix, x);
    let path = line_path(seq![STAR, DOT] + suffix);
    let i = choose|i: int| 0 <= i < list.paths().len() && list.paths()[i] == path;
    assert(pattern_blocks(list.paths()[i], name_path(x + seq![DOT] + suffix)));
}

/// The patterns of a list of lines hold the pattern of each of its pattern
/// lines.
pub proof fn lemma_lines_paths_hold(lines: Seq<Seq<u8>>, i: int)
    requires
        0 <= i < lines.len(),
        is_pattern_line(lines[i]),
    ensures
        lines_paths(lines).contains(line_path(lines[i])),
    decreases lines.len(),
{
    let init = lines.drop_last();
    if i == lines.len() - 1 {
        let all = lines_paths(lines);
        assert(all[all.len() - 1] == line_path(lines[i]));
    } else {
        lemma_lines_paths_hold(init, i);
        let j = choose|j: int| 0 <= j < lines_paths(init).len() && lines_paths(init)[j]
            == line_path(lines[i]);
        assert(init[i] == lines[i]);
        if is_pattern_line(lines.last()) {
            assert(lines_paths(lines)[j] == lines_paths(init)[j]);
        }
    }
}

/// A pattern blocks a name that meets it label by label to the end, or up
/// to a wildcard.
pub proof fn lemma_blocked_along(path: Seq<NodeView>, labels: Seq<Seq<u8>>)
    requires
        path.len() == labels.len(),
        labels.len() >= 1,
        forall|j: int|
            0 <= j < path.len() ==> (#[trigger] path[j] is Wildcard || path[j] == (
            NodeView::Domain { name: labels[j], blocking: j == path.len() - 1 })),
    ensures
        pattern_blocks(path, labels),
    decreases labels.len(),
{
    if !(path[0] is Wildcard) && labels.len() > 1 {
        let p = path.drop_first();
        let l = labels.drop_first();
        assert forall|j: int| 0 <= j < p.len() implies (#[trigger] p[j] is Wildcard || p[j] == (
        NodeView::Domain { name: l[j], blocking: j == p.len() - 1 })) by {
            assert(p[j] == path[j + 1]);
            assert(l[j] == labels[j + 1]);
        }
        lemma_blocked_along(p, l);
    }
}

/// The pattern that a line holds blocks the name that the line spells.
pub proof fn lemma_pattern_blocks_itself(line: Seq<u8>)
    ensures
        pattern_blocks(line_path(line), name_path(line)),
{
    let written = split_on(normalize(line), DOT);
    lemma_split_pieces(normalize(line), DOT);
    let n = written.len() as int;
    let path = line_path(line);
    let labels = name_path(line);
    assert forall|j: int| 0 <= j < n implies (#[trigger] path[j] is Wildcard || path[j] == (
    NodeView::Domain { name: labels[j], blocking: j == n - 1 })) by {
        assert(path[j] == line_nodes(line)[n - 1 - j]);
        assert(line_nodes(line)[n - 1 - j] == pattern_node(written[n - 1 - j], n - 1 - j == 0));
        assert(labels[j] == written[n - 1 - j]);
    }
    lemma_blocked_along(path, labels);
}

/// A name that a line of the loaded lines spells is blocked, if the line
/// holds a pattern.
pub proof fn lemma_loaded_name_is_blocked(list: BLContent, lines: Seq<Seq<u8>>, i: int)
    requires
        list.paths() == lines_paths(lines),
        0 <= i < lines.len(),
        is_pattern_line(lines[i]),
    ensures
        list.blocks(lines[i]),
{
    lemma_lines_paths_hold(lines, i);
    lemma_pattern_blocks_itself(lines[i]);
    let path = line_path(lines[i]);
    let k = choose|k: int| 0 <= k < list.paths().len() && list.paths()[k] == path;
    assert(pattern_blocks(list.paths()[k], name_path(lines[i])));
}

/// Where the line `*.suffix` is among the loaded lines, every name
/// `x.suffix` is blocked.
pub proof fn lemma_loaded_wildcard_dominates(
    list: BLContent,
    lines: Seq<Seq<u8>>,
    i: int,
    suffix: Seq<u8>,
    x: Seq<u8>,
)
    requires
        list.paths() == lines_paths(lines),
        0 <= i < lines.len(),
        lines[i] == seq![STAR, DOT] + suffix,
    ensures
        list.blocks(x + seq![DOT] + suffix),
{
    assert(lines[i][0] == STAR);
    lemma_lines_paths_hold(lines, i);
    lemma_wildcard_dominance(list, suffix, x);
}

} // verus!
