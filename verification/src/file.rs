//! The layout tree as layout files (YAML/JSON) describe it, and its
//! conversion to a [`Layout`].
//!
//! ```yaml
//! direction: vertical
//! children:
//!   - weight: 2
//!     pane: true
//!   - weight: 1
//!     direction: horizontal
//!     children:
//!       - weight: 1
//!         pane: true
//!       - weight: 1
//!         pane: true
//! ```

use vstd::prelude::*;

use crate::args::{lowercases_to, lowercases_to_exec};
use crate::text::str_chars;
use crate::layout::{lemma_children_view_push, children_view, Direction, Layout, LayoutView};

verus! {

/// A layout node as a file describes it: every node carries its own weight.
#[derive(Debug)]
pub enum FileLayout {
    /// A terminal pane node
    Pane { weight: u32, pane: bool },
    /// A split container node
    Split { weight: u32, direction: FileDirection, children: Vec<FileLayout> },
}

/// Direction in file format (`horizontal` / `vertical`).
#[derive(Debug, Clone, Copy, PartialEq, Eq, Structural)]
pub enum FileDirection {
    Horizontal,
    Vertical,
}

/// The whole content of a file node, with sequences in place of vectors.
pub enum FileLayoutView {
    Pane { weight: u32, pane: bool },
    Split { weight: u32, direction: FileDirection, children: Seq<FileLayoutView> },
}

/// The content of a file node.
pub open spec fn file_node_view(f: FileLayout) -> FileLayoutView
    decreases f,
{
    match f {
        FileLayout::Pane { weight, pane } => FileLayoutView::Pane { weight, pane },
        FileLayout::Split { weight, direction, children } => FileLayoutView::Split {
            weight,
            direction,
            children: file_nodes_view(children@),
        },
    }
}

/// The contents of a sequence of file nodes.
pub open spec fn file_nodes_view(cs: Seq<FileLayout>) -> Seq<FileLayoutView>
    decreases cs,
{
    if cs.len() == 0 {
        Seq::empty()
    } else {
        file_nodes_view(cs.drop_last()).push(file_node_view(cs.last()))
    }
}

impl View for FileLayout {
    type V = FileLayoutView;

    open spec fn view(&self) -> FileLayoutView {
        file_node_view(*self)
    }
}

/// The contents keep the order of the nodes, one for each.
pub proof fn lemma_file_nodes_view(cs: Seq<FileLayout>)
    ensures
        file_nodes_view(cs).len() == cs.len(),
        forall|i: int| 0 <= i < cs.len() ==> #[trigger] file_nodes_view(cs)[i] == file_node_view(cs[i]),
    decreases cs.len(),
{
    if cs.len() > 0 {
        lemma_file_nodes_view(cs.drop_last());
    }
}

/// The layout direction a file direction names.
pub open spec fn direction_of(fd: FileDirection) -> Direction {
    match fd {
        FileDirection::Horizontal => Direction::Horizontal,
        FileDirection::Vertical => Direction::Vertical,
    }
}

/// The file direction that names a layout direction.
pub open spec fn file_direction_of(d: Direction) -> FileDirection {
    match d {
        Direction::Horizontal => FileDirection::Horizontal,
        Direction::Vertical => FileDirection::Vertical,
    }
}

impl From<FileDirection> for Direction {
    fn from(fd: FileDirection) -> (d: Direction) {
        match fd {
            FileDirection::Horizontal => Direction::Horizontal,
            FileDirection::Vertical => Direction::Vertical,
        }
    }
}

impl vstd::std_specs::convert::FromSpecImpl<FileDirection> for Direction {
    open spec fn obeys_from_spec() -> bool {
        true
    }

    open spec fn from_spec(fd: FileDirection) -> Direction {
        direction_of(fd)
    }
}

impl From<Direction> for FileDirection {
    fn from(d: Direction) -> (fd: FileDirection) {
        match d {
            Direction::Horizontal => FileDirection::Horizontal,
            Direction::Vertical => FileDirection::Vertical,
        }
    }
}

impl vstd::std_specs::convert::FromSpecImpl<Direction> for FileDirection {
    open spec fn obeys_from_spec() -> bool {
        true
    }

    open spec fn from_spec(d: Direction) -> FileDirection {
        file_direction_of(d)
    }
}

/// The weight a file node carries.
pub open spec fn file_weight(f: FileLayout) -> u32 {
    match f {
        FileLayout::Pane { weight, .. } => weight,
        FileLayout::Split { weight, .. } => weight,
    }
}

/// The layout a file node describes: a pane node is a pane (whatever its
/// `pane` flag), a split node is a split in its direction whose children are
/// its child nodes, each weighted by the weight that node carries. The weight
/// of the node itself is not part of it.
pub open spec fn file_layout_view(f: FileLayout) -> LayoutView
    decreases f,
{
    match f {
        FileLayout::Pane { .. } => LayoutView::Pane,
        FileLayout::Split { direction, children, .. } => LayoutView::Split {
            direction: direction_of(direction),
            children: file_children_view(children@),
        },
    }
}

/// The weighted children that a sequence of file nodes describes.
pub open spec fn file_children_view(cs: Seq<FileLayout>) -> Seq<(u32, LayoutView)>
    decreases cs,
{
    if cs.len() == 0 {
        Seq::empty()
    } else {
        file_children_view(cs.drop_last()).push(
            (file_weight(cs.last()), file_layout_view(cs.last())),
        )
    }
}

/// The described children keep the order of the nodes, one for each.
pub proof fn lemma_file_children_view(cs: Seq<FileLayout>)
    ensures
        file_children_view(cs).len() == cs.len(),
        forall|i: int|
            0 <= i < cs.len() ==> #[trigger] file_children_view(cs)[i] == (
                file_weight(cs[i]),
                file_layout_view(cs[i]),
            ),
    decreases cs.len(),
{
    if cs.len() > 0 {
        lemma_file_children_view(cs.drop_last());
    }
}

/// The layout of a file node: a pane node is a pane; a split node is a
/// split in the direction it names whose `i`-th child, for every `i`, is the
/// `i`-th child node's weight with that node's layout, so that the children
/// keep their order and their weights.
pub proof fn lemma_file_layout_shape(f: FileLayout)
    ensures
        f is Pane ==> file_layout_view(f) == LayoutView::Pane,
        f matches FileLayout::Split { direction, children, .. } ==> {
            &&& file_layout_view(f) matches LayoutView::Split { direction: d, children: lc }
            &&& d == direction_of(direction)
            &&& lc.len() == children@.len()
            &&& forall|i: int|
                0 <= i < children@.len() ==> #[trigger] lc[i] == (
                    file_weight(children@[i]),
                    file_layout_view(children@[i]),
                )
        },
{
    if let FileLayout::Split { children, .. } = f {
        lemma_file_children_view(children@);
    }
}

impl Clone for FileLayout {
    /// A copy of the node: the same content, so the same weight and layout.
    fn clone(&self) -> (r: Self)
        ensures
            r@ == self@,
            file_weight(r) == file_weight(*self),
            file_layout_view(r) == file_layout_view(*self),
        decreases self,
    {
        match self {
            FileLayout::Pane { weight, pane } => FileLayout::Pane { weight: *weight, pane: *pane },
            FileLayout::Split { weight, direction, children } => {
                proof {
                    lemma_file_children_view(children@);
                    lemma_file_nodes_view(children@);
                }
                let n = children.len();
                let mut out: Vec<FileLayout> = Vec::new();
                let mut i: usize = 0;
                assert(decreases_to!(*self => *children));
                while i < n
                    invariant
                        decreases_to!(*self => *children),
                        n == children@.len(),
                        i <= n,
                        out@.len() == i,
                        forall|k: int|
                            0 <= k < i ==> file_weight(#[trigger] out@[k]) == file_weight(children@[k])
                                && file_layout_view(out@[k]) == file_layout_view(children@[k])
                                && out@[k]@ == children@[k]@,
                    decreases n - i,
                {
                    proof {
                        assert(decreases_to!(*children => children[i as int]));
                    }
                    let child = children[i].clone();
                    out.push(child);
                    i = i + 1;
                }
                proof {
                    lemma_file_children_view(out@);
                    lemma_file_nodes_view(out@);
                    assert(file_children_view(out@) =~= file_children_view(children@));
                    assert(file_nodes_view(out@) =~= file_nodes_view(children@));
                }
                FileLayout::Split { weight: *weight, direction: *direction, children: out }
            },
        }
    }
}

impl FileLayout {
    /// Convert to the internal Layout type.
    pub fn into_layout(self) -> (l: Layout)
        ensures
            l@ == file_layout_view(self),
    {
        self.to_layout()
    }

    /// The layout this node describes.
    fn to_layout(&self) -> (l: Layout)
        ensures
            l@ == file_layout_view(*self),
        decreases self,
    {
        match self {
            FileLayout::Pane { .. } => Layout::Pane,
            FileLayout::Split { direction, children, .. } => {
                proof {
                    lemma_file_children_view(children@);
                }
                let mut out: Vec<(u32, Layout)> = Vec::new();
                let n = children.len();
                let mut i: usize = 0;
                assert(decreases_to!(*self => *children));
                while i < n
                    invariant
                        decreases_to!(*self => *children),
                        n == children@.len(),
                        i <= n,
                        file_children_view(children@).len() == n,
                        forall|k: int|
                            0 <= k < n ==> #[trigger] file_children_view(children@)[k] == (
                                file_weight(children@[k]),
                                file_layout_view(children@[k]),
                            ),
                        children_view(out@) == file_children_view(children@).take(i as int),
                    decreases n - i,
                {
                    let child = &children[i];
                    proof {
                        assert(decreases_to!(*children => children[i as int]));
                    }
                    let weight = child.weight();
                    let l = child.to_layout();
                    proof {
                        lemma_children_view_push(out@, (weight, l));
                    }
                    out.push((weight, l));
                    i = i + 1;
                    assert(children_view(out@) =~= file_children_view(children@).take(i as int));
                }
                assert(file_children_view(children@).take(n as int) =~= file_children_view(
                    children@,
                ));
                Layout::Split { direction: Direction::from(*direction), children: out }
            },
        }
    }

    /// Get the weight of this layout node.
    fn weight(&self) -> (w: u32)
        ensures
            w == file_weight(*self),
    {
        match self {
            FileLayout::Pane { weight, .. } => *weight,
            FileLayout::Split { weight, .. } => *weight,
        }
    }
}

/// A layout file format.
#[derive(Debug, Clone, Copy, PartialEq, Eq, Structural)]
pub enum FileFormat {
    Json,
    Yaml,
}

/// The formats to try, in order, for a file with extension `ext` (case
/// aside): `json` is JSON, `yaml` and `yml` are YAML, and anything else is
/// tried as YAML (a superset of JSON) and then as JSON.
pub open spec fn spec_formats_for_extension(ext: Seq<char>) -> Seq<FileFormat> {
    if lowercases_to(ext, seq!['j', 's', 'o', 'n']) {
        seq![FileFormat::Json]
    } else if lowercases_to(ext, seq!['y', 'a', 'm', 'l']) || lowercases_to(ext, seq!['y', 'm', 'l']) {
        seq![FileFormat::Yaml]
    } else {
        seq![FileFormat::Yaml, FileFormat::Json]
    }
}

/// The formats to try, in order, for a file with extension `ext`.
pub fn formats_for_extension(ext: &str) -> (r: Vec<FileFormat>)
    ensures
        r@ == spec_formats_for_extension(ext@),
{
    let cs = str_chars(ext);
    let json = ['j', 's', 'o', 'n'];
    let yaml = ['y', 'a', 'm', 'l'];
    let yml = ['y', 'm', 'l'];
    assert(json@ =~= seq!['j', 's', 'o', 'n']);
    assert(yaml@ =~= seq!['y', 'a', 'm', 'l']);
    assert(yml@ =~= seq!['y', 'm', 'l']);
    let mut r: Vec<FileFormat> = Vec::new();
    if lowercases_to_exec(&cs, &json) {
        r.push(FileFormat::Json);
    } else if lowercases_to_exec(&cs, &yaml) || lowercases_to_exec(&cs, &yml) {
        r.push(FileFormat::Yaml);
    } else {
        r.push(FileFormat::Yaml);
        r.push(FileFormat::Json);
    }
    assert(r@ =~= spec_formats_for_extension(ext@));
    r
}

} // verus!
