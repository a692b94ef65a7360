//! Rendering the smartlog graph as lines of text.

use vstd::prelude::*;
use crate::commit::string_opt_view;
use crate::oid::NonZeroOid;
use crate::smartlog::graph::{graph_oids, position, Node, SmartlogGraph};
use crate::smartlog::roots::{
    is_root, neighbours_ordered, objects_of, split_commit_graph_by_roots, MergeBase,
};
use crate::smartlog::text::{bold_line, lines_view, plain_line, Style, StyledString};

verus! {

/// The glyphs of which the graph is drawn.
#[derive(Debug)]
pub struct Glyphs {
    /// A line between a commit and the one below.
    pub line: String,
    /// A line from which a branch goes off.
    pub line_with_offshoot: String,
    /// Stands for commits that are left out.
    pub vertical_ellipsis: String,
    /// The branch that goes off.
    pub slash: String,
    /// A commit.
    pub commit_visible: String,
    /// A commit that is checked out.
    pub commit_visible_head: String,
    /// An obsolete commit.
    pub commit_obsolete: String,
    /// An obsolete commit that is checked out.
    pub commit_obsolete_head: String,
    /// A commit of the main branch.
    pub commit_main: String,
    /// A commit of the main branch that is checked out.
    pub commit_main_head: String,
    /// An obsolete commit of the main branch.
    pub commit_main_obsolete: String,
    /// An obsolete commit of the main branch that is checked out.
    pub commit_main_obsolete_head: String,
}

/// The glyph that marks a commit.
pub open spec fn cursor(glyphs: Glyphs, is_main: bool, is_obsolete: bool, is_head: bool) -> Seq<char> {
    match (is_main, is_obsolete, is_head) {
        (false, false, false) => glyphs.commit_visible@,
        (false, false, true) => glyphs.commit_visible_head@,
        (false, true, false) => glyphs.commit_obsolete@,
        (false, true, true) => glyphs.commit_obsolete_head@,
        (true, false, false) => glyphs.commit_main@,
        (true, false, true) => glyphs.commit_main_head@,
        (true, true, false) => glyphs.commit_main_obsolete@,
        (true, true, true) => glyphs.commit_main_obsolete_head@,
    }
}

/// What is written beside a commit: the text that the descriptors made of
/// it.
#[derive(Debug)]
pub struct NodeText {
    /// The commit.
    pub oid: NonZeroOid,
    /// The text.
    pub text: StyledString,
}

/// The text of the commit `oid`: that of the first record for it; no text
/// if there is no record.
pub open spec fn text_of(texts: Seq<NodeText>, oid: NonZeroOid) -> Seq<(Seq<char>, Style)>
    decreases texts.len(),
{
    if texts.len() == 0 {
        seq![]
    } else if texts[0].oid == oid {
        texts[0].text@
    } else {
        text_of(texts.drop_first(), oid)
    }
}

/// The own parents of a commit, as the commit graph gave them.
#[derive(Debug)]
pub struct CommitParents {
    /// The commit.
    pub oid: NonZeroOid,
    /// Its own parents.
    pub parents: Vec<NonZeroOid>,
}

/// The own parents of the commit `oid`: those of the first record for it;
/// none if there is no record.
pub open spec fn real_parents(table: Seq<CommitParents>, oid: NonZeroOid) -> Seq<NonZeroOid>
    decreases table.len(),
{
    if table.len() == 0 {
        seq![]
    } else if table[0].oid == oid {
        table[0].parents@
    } else {
        real_parents(table.drop_first(), oid)
    }
}

/// The first line of a commit: its glyph, a space and its text; in bold if
/// the commit is checked out.
pub open spec fn first_line(
    glyphs: Glyphs,
    node: Node,
    is_head: bool,
    text: Seq<(Seq<char>, Style)>,
) -> Seq<(Seq<char>, Style)> {
    let line = plain_line(cursor(glyphs, node.is_main, node.is_obsolete, is_head)) + plain_line(" "@)
        + text;
    if is_head {
        bold_line(line)
    } else {
        line
    }
}

/// The children that are nodes of the graph, in order.
pub open spec fn shown_children(nodes: Seq<Node>, children: Seq<NonZeroOid>) -> Seq<NonZeroOid>
    decreases children.len(),
{
    if children.len() == 0 {
        seq![]
    } else {
        let before = shown_children(nodes, children.drop_last());
        if graph_oids(nodes).contains(children.last()) {
            before.push(children.last())
        } else {
            before
        }
    }
}

/// The lines with `indent` in front of each, if there is an indent.
pub open spec fn indented(indent: Option<Seq<char>>, lines: Seq<Seq<(Seq<char>, Style)>>) -> Seq<
    Seq<(Seq<char>, Style)>,
> {
    match indent {
        Some(prefix) => Seq::new(lines.len(), |i: int| plain_line(prefix) + lines[i]),
        None => lines,
    }
}

/// What the renderer is given besides the commit to draw.
pub struct Scene {
    /// The glyphs.
    pub glyphs: Glyphs,
    /// The nodes of the graph.
    pub nodes: Seq<Node>,
    /// The roots of the graph, in drawing order.
    pub roots: Seq<NonZeroOid>,
    /// The texts of the commits.
    pub texts: Seq<NodeText>,
    /// The commit that is checked out.
    pub head: Option<NonZeroOid>,
}

/// The lines of the commit `oid` and of what hangs on it, down to `fuel`
/// levels: its first line, then its children.
pub open spec fn node_output(
    scene: Scene,
    oid: NonZeroOid,
    last_child_line_char: Option<Seq<char>>,
    fuel: nat,
) -> Seq<Seq<(Seq<char>, Style)>>
    decreases fuel, 0nat,
{
    let m = position(graph_oids(scene.nodes), oid);
    if m >= scene.nodes.len() {
        seq![]
    } else {
        let node = scene.nodes[m];
        let first = first_line(scene.glyphs, node, scene.head == Some(oid), text_of(scene.texts, oid));
        if fuel == 0 {
            seq![first]
        } else {
            seq![first] + children_output(
                scene,
                shown_children(scene.nodes, node.children@),
                0,
                last_child_line_char,
                (fuel - 1) as nat,
            )
        }
    }
}

/// The lines of the children from number `idx` on.
///
/// A child that is a root is left out here. Before the lines of every
/// other child stands a connector: a branch going off. The lines of a child
/// that is not the last are indented by a line; those of the last by the
/// character that was handed down, if any.
pub open spec fn children_output(
    scene: Scene,
    children: Seq<NonZeroOid>,
    idx: int,
    last_child_line_char: Option<Seq<char>>,
    fuel: nat,
) -> Seq<Seq<(Seq<char>, Style)>>
    decreases fuel, children.len() - idx + 1,
{
    if idx < 0 || idx >= children.len() {
        seq![]
    } else {
        let child = children[idx];
        let rest = children_output(scene, children, idx + 1, last_child_line_char, fuel);
        if scene.roots.contains(child) {
            rest
        } else {
            let is_last = idx == children.len() - 1;
            seq![connector(scene.glyphs)] + indented(
                child_indent(scene.glyphs, is_last, last_child_line_char),
                node_output(scene, child, None, fuel),
            ) + rest
        }
    }
}

/// The line that leads to a child: a branch going off.
pub open spec fn connector(glyphs: Glyphs) -> Seq<(Seq<char>, Style)> {
    plain_line(glyphs.line_with_offshoot@ + glyphs.slash@)
}

/// What stands in front of the lines of a child.
pub open spec fn child_indent(
    glyphs: Glyphs,
    is_last: bool,
    last_child_line_char: Option<Seq<char>>,
) -> Option<Seq<char>> {
    if is_last {
        match last_child_line_char {
            Some(c) => Some(c + " "@),
            None => None,
        }
    } else {
        Some(glyphs.line@ + " "@)
    }
}

/// The text of the commit `oid`.
fn find_text(texts: &Vec<NodeText>, oid: NonZeroOid) -> (r: StyledString)
    ensures
        r@ == text_of(texts@, oid),
{
    let mut i: usize = 0;
    assert(texts@.skip(0) =~= texts@);
    while i < texts.len()
        invariant
            i <= texts@.len(),
            text_of(texts@, oid) == text_of(texts@.skip(i as int), oid),
        decreases texts@.len() - i,
    {
        proof {
            assert(texts@.skip(i as int)[0] == texts@[i as int]);
            assert(texts@.skip(i as int).drop_first() =~= texts@.skip(i + 1));
            texts@[i as int].oid.lemma_view(oid);
        }
        if texts[i].oid == oid {
            return texts[i].text.clone();
        }
        i += 1;
    }
    StyledString::new()
}

/// Whether `parent` is one of the own parents of the commit `oid`, and
/// whether the commit has own parents at all.
fn find_real_parent(table: &Vec<CommitParents>, oid: NonZeroOid, parent: Option<NonZeroOid>) -> (r: (
    bool,
    bool,
))
    ensures
        r.0 == (real_parents(table@, oid).len() > 0),
        r.1 == (parent is Some && real_parents(table@, oid).contains(parent->0)),
{
    let mut i: usize = 0;
    assert(table@.skip(0) =~= table@);
    while i < table.len()
        invariant
            i <= table@.len(),
            real_parents(table@, oid) == real_parents(table@.skip(i as int), oid),
        decreases table@.len() - i,
    {
        proof {
            assert(table@.skip(i as int)[0] == table@[i as int]);
            assert(table@.skip(i as int).drop_first() =~= table@.skip(i + 1));
            table@[i as int].oid.lemma_view(oid);
        }
        if table[i].oid == oid {
            let parents = &table[i].parents;
            let found = match parent {
                Some(p) => {
                    let mut k: usize = 0;
                    let mut found = false;
                    while k < parents.len()
                        invariant
                            k <= parents@.len(),
                            found == parents@.take(k as int).contains(p),
                        decreases parents@.len() - k,
                    {
                        proof {
                            parents@[k as int].lemma_view(p);
                            let a = parents@.take(k as int);
                            let b = parents@.take(k + 1);
                            assert(b =~= a.push(parents@[k as int]));
                            if a.contains(p) {
                                let w = choose|w: int| 0 <= w < a.len() && a[w] == p;
                                assert(b[w] == p);
                            }
                            if b.contains(p) && parents@[k as int] != p {
                                let w = choose|w: int| 0 <= w < b.len() && b[w] == p;
                                assert(a[w] == p);
                            }
                            if parents@[k as int] == p {
                                assert(b[k as int] == p);
                            }
                        }
                        if parents[k] == p {
                            found = true;
                        }
                        k += 1;
                    }
                    assert(parents@.take(k as int) =~= parents@);
                    found
                },
                None => false,
            };
            return (parents.len() > 0, found);
        }
        i += 1;
    }
    (false, false)
}

/// The glyph that marks a commit.
fn pick_cursor(glyphs: &Glyphs, is_main: bool, is_obsolete: bool, is_head: bool) -> (r: &String)
    ensures
        r@ == cursor(*glyphs, is_main, is_obsolete, is_head),
{
    match (is_main, is_obsolete, is_head) {
        (false, false, false) => &glyphs.commit_visible,
        (false, false, true) => &glyphs.commit_visible_head,
        (false, true, false) => &glyphs.commit_obsolete,
        (false, true, true) => &glyphs.commit_obsolete_head,
        (true, false, false) => &glyphs.commit_main,
        (true, false, true) => &glyphs.commit_main_head,
        (true, true, false) => &glyphs.commit_main_obsolete,
        (true, true, true) => &glyphs.commit_main_obsolete_head,
    }
}

/// Two strings, one after the other.
fn join(a: &str, b: &str) -> (r: String)
    ensures
        r@ == a@ + b@,
{
    let mut out = String::from_str(a);
    out.append(b);
    out
}

/// The first line of a commit.
fn make_first_line(glyphs: &Glyphs, node: &Node, is_head: bool, text: StyledString) -> (r:
    StyledString)
    ensures
        r@ == first_line(*glyphs, *node, is_head, text@),
{
    let cursor = pick_cursor(glyphs, node.is_main, node.is_obsolete, is_head);
    let mut line = StyledString::new();
    line.append_plain(cursor.clone());
    line.append_plain(String::from_str(" "));
    line.append(text);
    assert(line@ =~= plain_line(cursor@) + plain_line(" "@) + text@);
    if is_head {
        line.into_bold()
    } else {
        line
    }
}

/// The children that are nodes of the graph.
pub(crate) fn filter_children(graph: &SmartlogGraph, children: &Vec<NonZeroOid>) -> (r: Vec<NonZeroOid>)
    requires
        graph.wf(),
    ensures
        r@ == shown_children(graph.nodes@, children@),
{
    let mut out: Vec<NonZeroOid> = Vec::new();
    let mut i: usize = 0;
    while i < children.len()
        invariant
            i <= children@.len(),
            graph.wf(),
            out@ == shown_children(graph.nodes@, children@.take(i as int)),
        decreases children@.len() - i,
    {
        proof {
            let next = children@.take(i + 1);
            assert(next.drop_last() =~= children@.take(i as int));
            assert(next.last() == children@[i as int]);
        }
        if graph.get(children[i]).is_some() {
            out.push(children[i]);
        }
        i += 1;
    }
    assert(children@.take(i as int) =~= children@);
    out
}

/// Whether the identifiers hold `oid`.
pub(crate) fn is_among(oids: &Vec<NonZeroOid>, oid: NonZeroOid) -> (r: bool)
    ensures
        r == oids@.contains(oid),
{
    let mut i: usize = 0;
    while i < oids.len()
        invariant
            i <= oids@.len(),
            forall|j: int| 0 <= j < i ==> oids@[j] != oid,
        decreases oids@.len() - i,
    {
        proof {
            oids@[i as int].lemma_view(oid);
        }
        if oids[i] == oid {
            return true;
        }
        i += 1;
    }
    false
}

/// Adds to `lines` the lines of `more`, each with `indent` in front, if
/// there is an indent.
fn extend_indented(lines: &mut Vec<StyledString>, more: Vec<StyledString>, indent: &Option<String>)
    ensures
        lines_view(final(lines)@) == lines_view(old(lines)@) + indented(
            string_opt_view(*indent),
            lines_view(more@),
        ),
{
    let ghost start = lines_view(lines@);
    let ghost prefix: Option<Seq<char>> = string_opt_view(*indent);
    let ghost target = indented(prefix, lines_view(more@));
    let mut i: usize = 0;
    while i < more.len()
        invariant
            i <= more@.len(),
            target == indented(prefix, lines_view(more@)),
            prefix == string_opt_view(*indent),
            lines_view(lines@) == start + target.take(i as int),
        decreases more@.len() - i,
    {
        let line = match indent {
            Some(s) => {
                let mut line = StyledString::plain(s.clone());
                line.append(more[i].clone());
                line
            },
            None => more[i].clone(),
        };
        let ghost before = lines_view(lines@);
        assert(line@ == target[i as int]);
        lines.push(line);
        assert(lines_view(lines@) =~= before.push(target[i as int]));
        assert(lines_view(lines@) =~= start + target.take(i + 1));
        i += 1;
    }
    assert(target.take(i as int) =~= target);
}


/// What the renderer is given, as one value.
pub open spec fn scene_of(
    glyphs: Glyphs,
    graph: SmartlogGraph,
    roots: Seq<NonZeroOid>,
    texts: Seq<NodeText>,
    head: Option<NonZeroOid>,
) -> Scene {
    Scene { glyphs, nodes: graph.nodes@, roots, texts, head }
}

/// The lines of the commit `current_oid` and of what hangs on it.
///
/// The commit is drawn with its children, theirs, and so on, as deep as the
/// graph has nodes: deep enough for every graph without cycles.
pub fn get_child_output(
    glyphs: &Glyphs,
    graph: &SmartlogGraph,
    root_oids: &Vec<NonZeroOid>,
    texts: &Vec<NodeText>,
    head_oid: Option<NonZeroOid>,
    current_oid: NonZeroOid,
    last_child_line_char: &Option<String>,
) -> (r: Vec<StyledString>)
    requires
        graph.wf(),
    ensures
        lines_view(r@) == node_output(
            scene_of(*glyphs, *graph, root_oids@, texts@, head_oid),
            current_oid,
            string_opt_view(*last_child_line_char),
            graph.nodes@.len(),
        ),
{
    child_output_to_depth(
        glyphs,
        graph,
        root_oids,
        texts,
        head_oid,
        current_oid,
        last_child_line_char,
        graph.nodes.len(),
    )
}

/// The lines of the commit `current_oid` and of what hangs on it, down to
/// `fuel` levels.
fn child_output_to_depth(
    glyphs: &Glyphs,
    graph: &SmartlogGraph,
    root_oids: &Vec<NonZeroOid>,
    texts: &Vec<NodeText>,
    head_oid: Option<NonZeroOid>,
    current_oid: NonZeroOid,
    last_child_line_char: &Option<String>,
    fuel: usize,
) -> (r: Vec<StyledString>)
    requires
        graph.wf(),
    ensures
        lines_view(r@) == node_output(
            scene_of(*glyphs, *graph, root_oids@, texts@, head_oid),
            current_oid,
            string_opt_view(*last_child_line_char),
            fuel as nat,
        ),
    decreases fuel,
{
    let ghost scene = scene_of(*glyphs, *graph, root_oids@, texts@, head_oid);
    let ghost last = string_opt_view(*last_child_line_char);
    let mut lines: Vec<StyledString> = Vec::new();
    let current_node = match graph.find(current_oid) {
        Some(m) => &graph.nodes[m],
        None => {
            assert(lines_view(lines@) =~= Seq::<Seq<(Seq<char>, Style)>>::empty());
            return lines;
        },
    };
    let is_head = match head_oid {
        Some(head) => {
            proof {
                head.lemma_view(current_oid);
            }
            head == current_oid
        },
        None => false,
    };
    let text = find_text(texts, current_oid);
    let first = make_first_line(glyphs, current_node, is_head, text);
    let ghost first_view = first@;
    lines.push(first);
    assert(lines_view(lines@) =~= seq![first_view]);
    if fuel == 0 {
        return lines;
    }
    let children = filter_children(graph, &current_node.children);
    let mut idx: usize = 0;
    assert(lines_view(lines@) + children_output(scene, children@, 0, last, (fuel - 1) as nat)
        =~= seq![first_view] + children_output(scene, children@, 0, last, (fuel - 1) as nat));
    while idx < children.len()
        invariant
            idx <= children@.len(),
            fuel > 0,
            graph.wf(),
            scene == scene_of(*glyphs, *graph, root_oids@, texts@, head_oid),
            last == string_opt_view(*last_child_line_char),
            lines_view(lines@) + children_output(scene, children@, idx as int, last, (fuel - 1) as nat)
                == seq![first_view] + children_output(scene, children@, 0, last, (fuel - 1) as nat),
        decreases children@.len() - idx,
    {
        let child_oid = children[idx];
        let ghost before = lines_view(lines@);
        let ghost rest = children_output(scene, children@, idx + 1, last, (fuel - 1) as nat);
        if !is_among(root_oids, child_oid) {
            let is_last = idx == children.len() - 1;
            let line = StyledString::plain(
                join(glyphs.line_with_offshoot.as_str(), glyphs.slash.as_str()),
            );
            assert(line@ == connector(*glyphs));
            lines.push(line);
            assert(lines_view(lines@) =~= before.push(connector(*glyphs)));
            let no_char: Option<String> = None;
            let child_output = child_output_to_depth(
                glyphs,
                graph,
                root_oids,
                texts,
                head_oid,
                child_oid,
                &no_char,
                fuel - 1,
            );
            let indent: Option<String> = if is_last {
                match last_child_line_char {
                    Some(c) => Some(join(c.as_str(), " ")),
                    None => None,
                }
            } else {
                Some(join(glyphs.line.as_str(), " "))
            };
            assert(string_opt_view(indent) == child_indent(*glyphs, is_last, last));
            extend_indented(&mut lines, child_output, &indent);
            proof {
                let below = indented(
                    child_indent(*glyphs, is_last, last),
                    node_output(scene, child_oid, None, (fuel - 1) as nat),
                );
                assert(lines_view(lines@) + rest =~= before + (seq![connector(*glyphs)] + below
                    + rest));
            }
        }
        idx += 1;
    }
    assert(lines_view(lines@) + Seq::<Seq<(Seq<char>, Style)>>::empty() =~= lines_view(lines@));
    lines
}

/// The lines of the roots from number `idx` on, each with what hangs on it.
///
/// Above a root that has own parents stands a line, if the root before it
/// is one of them, and else an ellipsis for the commits that are left out.
/// A root without own parents that is not the first is set off by an empty
/// line.
pub open spec fn roots_output(
    scene: Scene,
    parents: Seq<CommitParents>,
    idx: int,
    fuel: nat,
) -> Seq<Seq<(Seq<char>, Style)>>
    decreases scene.roots.len() - idx,
{
    if idx < 0 || idx >= scene.roots.len() {
        seq![]
    } else {
        root_prefix(scene, parents, idx) + node_output(
            scene,
            scene.roots[idx],
            root_line_char(scene, parents, idx),
            fuel,
        ) + roots_output(scene, parents, idx + 1, fuel)
    }
}

/// What stands above the root number `idx`.
pub open spec fn root_prefix(scene: Scene, parents: Seq<CommitParents>, idx: int) -> Seq<
    Seq<(Seq<char>, Style)>,
> {
    let own = real_parents(parents, scene.roots[idx]);
    if own.len() > 0 {
        if idx > 0 && own.contains(scene.roots[idx - 1]) {
            seq![plain_line(scene.glyphs.line@)]
        } else {
            seq![plain_line(scene.glyphs.vertical_ellipsis@)]
        }
    } else if idx > 0 {
        seq![Seq::empty()]
    } else {
        seq![]
    }
}

/// The character that continues beside the last child of the root number
/// `idx`: none for the last root; a line if the next root has this one as
/// an own parent; else an ellipsis.
pub open spec fn root_line_char(scene: Scene, parents: Seq<CommitParents>, idx: int) -> Option<
    Seq<char>,
> {
    if idx == scene.roots.len() - 1 {
        None
    } else if real_parents(parents, scene.roots[idx + 1]).contains(scene.roots[idx]) {
        Some(scene.glyphs.line@)
    } else {
        Some(scene.glyphs.vertical_ellipsis@)
    }
}

/// The lines of the graph, drawn from the given roots in their order.
pub fn get_output(
    glyphs: &Glyphs,
    parents: &Vec<CommitParents>,
    graph: &SmartlogGraph,
    texts: &Vec<NodeText>,
    head_oid: Option<NonZeroOid>,
    root_oids: &Vec<NonZeroOid>,
) -> (r: Vec<StyledString>)
    requires
        graph.wf(),
    ensures
        lines_view(r@) == roots_output(
            scene_of(*glyphs, *graph, root_oids@, texts@, head_oid),
            parents@,
            0,
            graph.nodes@.len(),
        ),
{
    let ghost scene = scene_of(*glyphs, *graph, root_oids@, texts@, head_oid);
    let fuel = graph.nodes.len();
    let mut lines: Vec<StyledString> = Vec::new();
    let mut root_idx: usize = 0;
    assert(lines_view(lines@) + roots_output(scene, parents@, 0, fuel as nat) =~= roots_output(
        scene,
        parents@,
        0,
        fuel as nat,
    ));
    while root_idx < root_oids.len()
        invariant
            root_idx <= root_oids@.len(),
            graph.wf(),
            fuel == graph.nodes@.len(),
            scene == scene_of(*glyphs, *graph, root_oids@, texts@, head_oid),
            lines_view(lines@) + roots_output(scene, parents@, root_idx as int, fuel as nat)
                == roots_output(scene, parents@, 0, fuel as nat),
        decreases root_oids@.len() - root_idx,
    {
        let root_oid = root_oids[root_idx];
        let ghost before = lines_view(lines@);
        let ghost rest = roots_output(scene, parents@, root_idx + 1, fuel as nat);
        let previous: Option<NonZeroOid> = if root_idx > 0 {
            Some(root_oids[root_idx - 1])
        } else {
            None
        };
        let (has_parents, previous_is_parent) = find_real_parent(parents, root_oid, previous);
        if has_parents {
            let line = if previous_is_parent {
                StyledString::plain(glyphs.line.clone())
            } else {
                StyledString::plain(glyphs.vertical_ellipsis.clone())
            };
            lines.push(line);
        } else if root_idx > 0 {
            lines.push(StyledString::new());
        }
        assert(lines_view(lines@) =~= before + root_prefix(scene, parents@, root_idx as int));
        let last_child_line_char: Option<String> = if root_idx == root_oids.len() - 1 {
            None
        } else {
            let next_root_oid = root_oids[root_idx + 1];
            let (_, is_parent) = find_real_parent(parents, next_root_oid, Some(root_oid));
            if is_parent {
                Some(glyphs.line.clone())
            } else {
                Some(glyphs.vertical_ellipsis.clone())
            }
        };
        assert(string_opt_view(last_child_line_char) == root_line_char(
            scene,
            parents@,
            root_idx as int,
        ));
        let child_output = get_child_output(
            glyphs,
            graph,
            root_oids,
            texts,
            head_oid,
            root_oid,
            &last_child_line_char,
        );
        let ghost with_prefix = lines_view(lines@);
        let no_indent: Option<String> = None;
        extend_indented(&mut lines, child_output, &no_indent);
        proof {
            let below = node_output(
                scene,
                root_oid,
                root_line_char(scene, parents@, root_idx as int),
                fuel as nat,
            );
            assert(lines_view(lines@) == with_prefix + below);
            assert(lines_view(lines@) + rest =~= before + (root_prefix(
                scene,
                parents@,
                root_idx as int,
            ) + below + rest));
        }
        root_idx += 1;
    }
    assert(lines_view(lines@) + Seq::<Seq<(Seq<char>, Style)>>::empty() =~= lines_view(lines@));
    lines
}

/// Renders the smartlog graph.
///
/// The roots are put in order, the one to be drawn first first: each root
/// stands once among them, and each comes before its neighbour in the
/// order of roots. Then the graph is drawn from the roots, as
/// [`roots_output`] tells, as deep as the graph has nodes.
pub fn render_graph(
    glyphs: &Glyphs,
    merge_bases: &Vec<MergeBase>,
    parents: &Vec<CommitParents>,
    graph: &SmartlogGraph,
    head_oid: Option<NonZeroOid>,
    texts: &Vec<NodeText>,
) -> (r: Vec<StyledString>)
    requires
        graph.wf(),
    ensures
        exists|roots: Seq<NonZeroOid>|
            {
                &&& roots.no_duplicates()
                &&& forall|oid: NonZeroOid| roots.contains(oid) <==> is_root(graph.nodes@, oid)
                &&& neighbours_ordered(merge_bases@, objects_of(graph.nodes@, roots))
                &&& lines_view(r@) == #[trigger] roots_output(
                    scene_of(*glyphs, *graph, roots, texts@, head_oid),
                    parents@,
                    0,
                    graph.nodes@.len(),
                )
            },
{
    let root_oids = split_commit_graph_by_roots(graph, merge_bases);
    let lines = get_output(glyphs, parents, graph, texts, head_oid, &root_oids);
    assert(lines_view(lines@) == roots_output(
        scene_of(*glyphs, *graph, root_oids@, texts@, head_oid),
        parents@,
        0,
        graph.nodes@.len(),
    ));
    lines
}

/// A revision set, as the user wrote it.
#[derive(Clone, Debug, PartialEq, Eq, Hash)]
pub struct Revset(pub String);

/// Options for rendering the smartlog.
#[derive(Debug)]
pub struct SmartlogOptions {
    /// Whether to also show commits in the smartlog which would normally not
    /// be visible.
    pub show_hidden_commits: bool,
    /// The point in time at which to show the smartlog. If not provided,
    /// renders the smartlog as of the current time. If negative, is treated
    /// as an offset from the current event.
    pub event_id: Option<isize>,
    /// The commits to render. These commits and their ancestors up to the
    /// main branch will be rendered.
    pub revset: Revset,
}

impl Default for SmartlogOptions {
    fn default() -> (r: Self)
        ensures
            !r.show_hidden_commits,
            r.event_id is None,
            r.revset.0@ == "draft()"@,
    {
        Self {
            show_hidden_commits: false,
            event_id: None,
            revset: Revset(String::from_str("draft()")),
        }
    }
}


/// The point in the event log at which the smartlog is shown.
#[derive(Clone, Copy, Debug, PartialEq, Eq, Structural, Hash)]
pub enum EventCursorChoice {
    /// The current state.
    Default,
    /// The current state, moved by so many events (a negative number: back).
    AdvanceFromDefault {
        /// The number of events to move by.
        by: isize,
    },
    /// The state after the event with this number.
    At {
        /// The number of the event.
        event_id: isize,
    },
}

/// The point that an event number stands for: none stands for the current
/// state, a negative one for an offset from the current state, any other
/// for the event itself.
pub open spec fn event_cursor(event_id: Option<isize>) -> EventCursorChoice {
    match event_id {
        None => EventCursorChoice::Default,
        Some(id) => if id < 0 {
            EventCursorChoice::AdvanceFromDefault { by: id }
        } else {
            EventCursorChoice::At { event_id: id }
        },
    }
}

impl SmartlogOptions {
    /// The point in the event log at which the smartlog is to be shown.
    pub fn choose_event_cursor(&self) -> (r: EventCursorChoice)
        ensures
            r == event_cursor(self.event_id),
    {
        match self.event_id {
            None => EventCursorChoice::Default,
            Some(event_id) => if event_id < 0 {
                EventCursorChoice::AdvanceFromDefault { by: event_id }
            } else {
                EventCursorChoice::At { event_id }
            },
        }
    }
}

} // verus!
