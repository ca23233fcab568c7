//! The trace of a lookup.
//!
//! A lookup can be asked to tell what it saw: for every page on its way
//! the kind and the cells of the page, and what it did there. The steps
//! are data; each step renders to a line of text.
use crate::btree::model::{page_at, Store};
use crate::page::cell::CellView;
use crate::page::slotted::child_for;
use crate::types::page_id::PageId;
use crate::types::text::{
    bool_text, debug_quoted, decimal, decimal_digits, lossy_text, quoted, utf8_lossy,
};
use vstd::prelude::*;

verus! {

/// A step of a lookup.
#[derive(Debug)]
pub enum TraceStep {
    /// The tree has no root.
    EmptyTree,
    /// The lookup starts for this key.
    Searching { key: Vec<u8> },
    /// The root and the height that the lookup starts from.
    Root { page_id: PageId, height: usize },
    /// The lookup reads this page.
    Page { page_id: PageId, is_leaf: bool, cell_count: usize },
    /// A cell of the leaf that the lookup has reached.
    LeafCell { index: usize, key: Vec<u8> },
    /// The key is in the cell of this index.
    Found { index: usize },
    /// The key is not in the leaf.
    NotFound,
    /// The child of the header of an interior page.
    HeaderChild { child: PageId },
    /// A cell of an interior page: its separator and its child.
    InteriorCell { index: usize, key: Vec<u8>, child: PageId },
    /// The lookup goes on in this child.
    Descend { child: PageId },
}

/// What a step stands for.
pub ghost enum TraceStepView {
    EmptyTree,
    Searching { key: Seq<u8> },
    Root { page_id: PageId, height: usize },
    Page { page_id: PageId, is_leaf: bool, cell_count: usize },
    LeafCell { index: usize, key: Seq<u8> },
    Found { index: usize },
    NotFound,
    HeaderChild { child: PageId },
    InteriorCell { index: usize, key: Seq<u8>, child: PageId },
    Descend { child: PageId },
}

impl View for TraceStep {
    type V = TraceStepView;

    open spec fn view(&self) -> TraceStepView {
        match self {
            TraceStep::EmptyTree => TraceStepView::EmptyTree,
            TraceStep::Searching { key } => TraceStepView::Searching { key: key@ },
            TraceStep::Root { page_id, height } => TraceStepView::Root {
                page_id: *page_id,
                height: *height,
            },
            TraceStep::Page { page_id, is_leaf, cell_count } => TraceStepView::Page {
                page_id: *page_id,
                is_leaf: *is_leaf,
                cell_count: *cell_count,
            },
            TraceStep::LeafCell { index, key } => TraceStepView::LeafCell {
                index: *index,
                key: key@,
            },
            TraceStep::Found { index } => TraceStepView::Found { index: *index },
            TraceStep::NotFound => TraceStepView::NotFound,
            TraceStep::HeaderChild { child } => TraceStepView::HeaderChild { child: *child },
            TraceStep::InteriorCell { index, key, child } => TraceStepView::InteriorCell {
                index: *index,
                key: key@,
                child: *child,
            },
            TraceStep::Descend { child } => TraceStepView::Descend { child: *child },
        }
    }
}

/// The models of a list of steps.
pub open spec fn step_views(steps: Seq<TraceStep>) -> Seq<TraceStepView> {
    Seq::new(steps.len(), |i: int| steps[i]@)
}

/// The line of text of a step.
pub open spec fn rendered(step: TraceStepView) -> Seq<char> {
    match step {
        TraceStepView::EmptyTree => "Tree is empty (root_page = 0)"@,
        TraceStepView::Searching { key } => "Searching for key: "@ + debug_quoted(utf8_lossy(key)),
        TraceStepView::Root { page_id, height } => "Root page: "@ + decimal_digits(
            page_id.0 as nat,
        ) + ", Height: "@ + decimal_digits(height as nat),
        TraceStepView::Page { page_id, is_leaf, cell_count } => "  Page "@ + decimal_digits(
            page_id.0 as nat,
        ) + ": is_leaf="@ + bool_text(is_leaf) + ", cell_count="@ + decimal_digits(
            cell_count as nat,
        ),
        TraceStepView::LeafCell { index, key } => "    Cell "@ + decimal_digits(index as nat)
            + ": key="@ + utf8_lossy(key),
        TraceStepView::Found { index } => "  FOUND at index "@ + decimal_digits(index as nat),
        TraceStepView::NotFound => "  NOT FOUND in leaf"@,
        TraceStepView::HeaderChild { child } => "    right_child="@ + decimal_digits(
            child.0 as nat,
        ) + " (keys < first sep)"@,
        TraceStepView::InteriorCell { index, key, child } => "    Cell "@ + decimal_digits(
            index as nat,
        ) + ": sep="@ + utf8_lossy(key) + ", child="@ + decimal_digits(child.0 as nat)
            + " (keys >= sep)"@,
        TraceStepView::Descend { child } => "  -> Descending to child page "@ + decimal_digits(
            child.0 as nat,
        ),
    }
}

/// The steps that show the cells of a leaf, up to cell `n`.
pub open spec fn leaf_cell_steps(cells: Seq<CellView>, n: nat) -> Seq<TraceStepView>
    decreases n,
{
    if n == 0 {
        Seq::empty()
    } else {
        leaf_cell_steps(cells, (n - 1) as nat).push(
            TraceStepView::LeafCell { index: (n - 1) as usize, key: cells[n - 1].key },
        )
    }
}

/// The steps that show the cells of an interior page, up to cell `n`.
pub open spec fn interior_cell_steps(cells: Seq<CellView>, n: nat) -> Seq<TraceStepView>
    decreases n,
{
    if n == 0 {
        Seq::empty()
    } else {
        interior_cell_steps(cells, (n - 1) as nat).push(
            TraceStepView::InteriorCell {
                index: (n - 1) as usize,
                key: cells[n - 1].key,
                child: cells[n - 1].left_child,
            },
        )
    }
}

/// How a lookup in a leaf ends: with the index of the cell that holds
/// the key, or without.
pub open spec fn leaf_outcome(cells: Seq<CellView>, key: Seq<u8>) -> TraceStepView {
    if exists|i: int| 0 <= i < cells.len() && (#[trigger] cells[i]).key == key {
        TraceStepView::Found {
            index: (choose|i: int| 0 <= i < cells.len() && (#[trigger] cells[i]).key
                == key) as usize,
        }
    } else {
        TraceStepView::NotFound
    }
}

/// The steps of a lookup of `key` in the subtree of `id`, whose leaves
/// lie `h` levels down: the page and its cells, then the outcome in a
/// leaf, or the child that the lookup goes on in and the steps there.
pub open spec fn subtree_trace(s: Store, id: u32, h: nat, key: Seq<u8>) -> Seq<TraceStepView>
    decreases h,
{
    if h == 0 {
        Seq::empty()
    } else {
        let v = page_at(s, id);
        let head = seq![
            TraceStepView::Page {
                page_id: PageId(id),
                is_leaf: h == 1,
                cell_count: v.cells.len() as usize,
            },
        ];
        if h == 1 {
            head + leaf_cell_steps(v.cells, v.cells.len()).push(leaf_outcome(v.cells, key))
        } else {
            (head.push(TraceStepView::HeaderChild { child: v.right_child })
                + interior_cell_steps(v.cells, v.cells.len())).push(
                TraceStepView::Descend { child: child_for(v, key) },
            ) + subtree_trace(s, child_for(v, key).0, (h - 1) as nat, key)
        }
    }
}

/// The steps of a lookup of `key` in the tree of root `root`.
pub open spec fn tree_trace(s: Store, root: u32, h: nat, key: Seq<u8>) -> Seq<TraceStepView> {
    if root == 0 {
        seq![TraceStepView::EmptyTree]
    } else {
        seq![
            TraceStepView::Searching { key },
            TraceStepView::Root { page_id: PageId(root), height: h as usize },
        ] + subtree_trace(s, root, h, key)
    }
}

/// The text of a truth value.
fn bool_str(b: bool) -> (r: &'static str)
    ensures
        r@ == bool_text(b),
{
    if b {
        "true"
    } else {
        "false"
    }
}

impl TraceStep {
    /// The line of text of the step.
    pub fn render(&self) -> (r: String)
        ensures
            r@ == rendered(self@),
    {
        let mut line = String::new();
        match self {
            TraceStep::EmptyTree => {
                line.push_str("Tree is empty (root_page = 0)");
                assert(line@ =~= rendered(self@));
            },
            TraceStep::Searching { key } => {
                line.push_str("Searching for key: ");
                line.push_str(quoted(lossy_text(key.as_slice()).as_str()).as_str());
                assert(line@ =~= rendered(self@));
            },
            TraceStep::Root { page_id, height } => {
                line.push_str("Root page: ");
                line.push_str(decimal(page_id.value() as u64).as_str());
                line.push_str(", Height: ");
                line.push_str(decimal(*height as u64).as_str());
                assert(line@ =~= rendered(self@));
            },
            TraceStep::Page { page_id, is_leaf, cell_count } => {
                line.push_str("  Page ");
                line.push_str(decimal(page_id.value() as u64).as_str());
                line.push_str(": is_leaf=");
                line.push_str(bool_str(*is_leaf));
                line.push_str(", cell_count=");
                line.push_str(decimal(*cell_count as u64).as_str());
                assert(line@ =~= rendered(self@));
            },
            TraceStep::LeafCell { index, key } => {
                line.push_str("    Cell ");
                line.push_str(decimal(*index as u64).as_str());
                line.push_str(": key=");
                line.push_str(lossy_text(key.as_slice()).as_str());
                assert(line@ =~= rendered(self@));
            },
            TraceStep::Found { index } => {
                line.push_str("  FOUND at index ");
                line.push_str(decimal(*index as u64).as_str());
                assert(line@ =~= rendered(self@));
            },
            TraceStep::NotFound => {
                line.push_str("  NOT FOUND in leaf");
                assert(line@ =~= rendered(self@));
            },
            TraceStep::HeaderChild { child } => {
                line.push_str("    right_child=");
                line.push_str(decimal(child.value() as u64).as_str());
                line.push_str(" (keys < first sep)");
                assert(line@ =~= rendered(self@));
            },
            TraceStep::InteriorCell { index, key, child } => {
                line.push_str("    Cell ");
                line.push_str(decimal(*index as u64).as_str());
                line.push_str(": sep=");
                line.push_str(lossy_text(key.as_slice()).as_str());
                line.push_str(", child=");
                line.push_str(decimal(child.value() as u64).as_str());
                line.push_str(" (keys >= sep)");
                assert(line@ =~= rendered(self@));
            },
            TraceStep::Descend { child } => {
                line.push_str("  -> Descending to child page ");
                line.push_str(decimal(child.value() as u64).as_str());
                assert(line@ =~= rendered(self@));
            },
        }
        line
    }
}

} // verus!
