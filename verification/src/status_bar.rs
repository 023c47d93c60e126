//! What the status bar says of the nesting at the cursor.
use crate::marker::{MarkerKind, MarkerKindView};
use vstd::prelude::*;
use vstd::string::*;

verus! {

/// A display under construction.
pub struct ContextView {
    /// Texts with the depth at which they stand.
    pub items: Seq<(Seq<char>, int)>,
    pub depth: int,
    /// The last marker that was shown is a checkbox.
    pub after_checkbox: bool,
}

/// A marker opens a level of nesting.
pub open spec fn is_block(k: MarkerKindView) -> bool {
    k is BlockQuote || k is ListItem || k is CodeBlockFence
}

/// A display with one marker more, which is the first one or not. A list marker behind a
/// checkbox is left out, and the checkbox that follows shows in a compact form.
pub open spec fn with_marker(c: ContextView, k: MarkerKindView, first: bool) -> ContextView {
    let deeper = if first {
        c.depth
    } else {
        c.depth + 1
    };
    if k is ListItem && c.after_checkbox {
        ContextView { depth: deeper, ..c }
    } else {
        let depth = if is_block(k) {
            deeper
        } else {
            c.depth
        };
        let text = match k {
            MarkerKindView::Checkbox { checked } => if c.after_checkbox {
                if checked {
                    "x]"@
                } else {
                    " ]"@
                }
            } else {
                k.status_bar_str()
            },
            _ => k.status_bar_str(),
        };
        ContextView {
            items: c.items.push((text, depth)),
            depth,
            after_checkbox: k is Checkbox,
        }
    }
}

/// The display of the first `k` markers.
pub open spec fn context_display(ms: Seq<MarkerKindView>, k: int) -> ContextView
    decreases k,
{
    if k <= 0 {
        ContextView { items: seq![], depth: 0, after_checkbox: false }
    } else {
        with_marker(context_display(ms, k - 1), ms[k - 1], k == 1)
    }
}

/// What some texts with depths say.
pub open spec fn items_view(v: Seq<(String, usize)>) -> Seq<(Seq<char>, int)> {
    v.map_values(|p: (String, usize)| (p.0@, p.1 as int))
}

/// Build the display string for context markers, handling nested checkbox compaction.
/// Returns a vector of (display_string, depth) tuples.
pub fn build_context_display(markers: &[MarkerKind]) -> (r: Vec<(String, usize)>)
    ensures
        items_view(r@) == context_display(
            markers@.map_values(|m: MarkerKind| m@),
            markers@.len() as int,
        ).items,
{
    let ghost ms = markers@.map_values(|m: MarkerKind| m@);
    let mut result: Vec<(String, usize)> = Vec::new();
    let mut depth: usize = 0;
    let mut prev_was_checkbox = false;
    let mut i: usize = 0;
    assert(items_view(result@) =~= Seq::<(Seq<char>, int)>::empty());
    while i < markers.len()
        invariant
            ms == markers@.map_values(|m: MarkerKind| m@),
            i <= markers@.len(),
            depth <= i,
            items_view(result@) == context_display(ms, i as int).items,
            depth == context_display(ms, i as int).depth,
            prev_was_checkbox == context_display(ms, i as int).after_checkbox,
        decreases markers@.len() - i,
    {
        let marker = &markers[i];
        assert(ms[i as int] == marker@);
        // Skip list marker if previous was checkbox (they're grouped together)
        if marker.is_list_item() && prev_was_checkbox {
            if i > 0 {
                depth += 1;
            }
        } else {
            // Increment depth before block-level markers (except first)
            if i > 0 && marker.is_block_level() {
                depth += 1;
            }
            // Determine display string (nested checkboxes use compact form)
            let display_str = match marker {
                MarkerKind::Checkbox { checked } => if prev_was_checkbox {
                    if *checked {
                        "x]".to_owned()
                    } else {
                        " ]".to_owned()
                    }
                } else {
                    marker.status_bar_str()
                },
                _ => marker.status_bar_str(),
            };
            let ghost before = result@;
            let ghost text = display_str@;
            result.push((display_str, depth));
            assert(items_view(result@) =~= items_view(before).push((text, depth as int)));
            prev_was_checkbox = marker.is_checkbox();
        }
        i += 1;
    }
    result
}

/// Depths never fall, and grow by one at a time.
pub proof fn law_depths_grow_stepwise(ms: Seq<MarkerKindView>, k: int)
    requires
        0 <= k < ms.len(),
    ensures
        context_display(ms, k).depth <= context_display(ms, k + 1).depth
            <= context_display(ms, k).depth + 1,
{
}

/// How many of the markers behind the first one, up to the one at `i`, are quotes, list items
/// or fences.
pub open spec fn blocks_behind_first(ms: Seq<MarkerKindView>, i: int) -> int
    decreases i,
{
    if i <= 0 {
        0
    } else {
        blocks_behind_first(ms, i - 1) + (if ms[i] is BlockQuote || ms[i] is ListItem
            || ms[i] is CodeBlockFence {
            1int
        } else {
            0int
        })
    }
}

/// Without checkboxes every marker is shown by its name, at the depth of the blocks that it
/// is nested in.
pub proof fn law_markers_show_in_order(ms: Seq<MarkerKindView>, k: int)
    requires
        0 <= k <= ms.len(),
        forall|i: int| 0 <= i < ms.len() ==> (#[trigger] ms[i]) !is Checkbox,
    ensures
        context_display(ms, k).items.len() == k,
        forall|i: int|
            0 <= i < k ==> (#[trigger] context_display(ms, k).items[i]).0 == ms[i].status_bar_str()
                && context_display(ms, k).items[i].1 == blocks_behind_first(ms, i),
        !context_display(ms, k).after_checkbox,
        context_display(ms, k).depth == (if k == 0 {
            0
        } else {
            blocks_behind_first(ms, k - 1)
        }),
    decreases k,
{
    if k > 0 {
        law_markers_show_in_order(ms, k - 1);
        assert(ms[k - 1] !is Checkbox);
        let before = context_display(ms, k - 1).items;
        let after = context_display(ms, k).items;
        assert forall|i: int| 0 <= i < k implies (#[trigger] after[i]).0 == ms[i].status_bar_str()
            && after[i].1 == blocks_behind_first(ms, i) by {
            if i < k - 1 {
                assert(after[i] == before[i]);
            }
        }
    }
}

/// A task in a task is shown by its box alone, in a compact form and one level deeper: the
/// mark of its list is left out.
pub proof fn law_nested_tasks_are_compact(ms: Seq<MarkerKindView>, k: int, checked: bool)
    requires
        0 < k,
        k + 1 < ms.len(),
        ms[k - 1] is Checkbox,
        ms[k] is ListItem,
        ms[k + 1] == (MarkerKindView::Checkbox { checked }),
    ensures
        context_display(ms, k + 1).items == context_display(ms, k).items,
        checked ==> context_display(ms, k + 2).items == context_display(ms, k).items.push(
            (seq!['x', ']'], context_display(ms, k).depth + 1),
        ),
        !checked ==> context_display(ms, k + 2).items == context_display(ms, k).items.push(
            (seq![' ', ']'], context_display(ms, k).depth + 1),
        ),
{
    reveal_strlit("x]");
    reveal_strlit(" ]");
    assert("x]"@ =~= seq!['x', ']']);
    assert(" ]"@ =~= seq![' ', ']']);
    reveal_with_fuel(context_display, 3);
}

/// The first task of a line is shown in full, at the depth of its list.
pub proof fn law_first_task_is_full(ms: Seq<MarkerKindView>, checked: bool)
    requires
        ms.len() == 2,
        ms[0] is ListItem,
        ms[1] == (MarkerKindView::Checkbox { checked }),
    ensures
        context_display(ms, 2).items == seq![
            (ms[0].status_bar_str(), 0int),
            (ms[1].status_bar_str(), 0int),
        ],
{
    reveal_with_fuel(context_display, 3);
    assert(context_display(ms, 2).items =~= seq![
        (ms[0].status_bar_str(), 0int),
        (ms[1].status_bar_str(), 0int),
    ]);
}

} // verus!
