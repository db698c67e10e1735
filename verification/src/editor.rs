//! The inline text editor: when an edit ends, and what it leaves.
//!
//! Escape and Shift+Enter end the edit and take the text out of the selection; so
//! does a click elsewhere, but for the selection. A text that is empty then is
//! removed.

use vstd::prelude::*;

use crate::app::{App, AppView};
use crate::overlay::{overlay_views, overlays_wf, Overlay, OverlayView};

verus! {

/// What happened in the editor in one frame.
pub struct EditInput {
    /// The text as it is now.
    pub text: String,
    /// The ends of the selection in it.
    pub cursor_range: Option<(usize, usize)>,
    pub esc: bool,
    pub shift_enter: bool,
    pub lost_focus: bool,
}

/// The mathematical content of [`EditInput`].
pub struct EditView {
    pub text: Seq<char>,
    pub cursor_range: Option<(usize, usize)>,
    pub esc: bool,
    pub shift_enter: bool,
    pub lost_focus: bool,
}

impl View for EditInput {
    type V = EditView;

    open spec fn view(&self) -> EditView {
        EditView {
            text: self.text@,
            cursor_range: self.cursor_range,
            esc: self.esc,
            shift_enter: self.shift_enter,
            lost_focus: self.lost_focus,
        }
    }
}

impl EditView {
    /// The text without the line break that Shift+Enter has put at its end.
    pub open spec fn final_text(self) -> Seq<char> {
        if self.shift_enter && self.text.len() > 0 && self.text.last() == '\n' {
            self.text.drop_last()
        } else {
            self.text
        }
    }

    /// The edit ends.
    pub open spec fn ends(self) -> bool {
        self.esc || self.shift_enter || self.lost_focus
    }
}

/// A selection after an overlay has been removed: without it, and with the indices
/// behind it one lower.
pub open spec fn closed_up(selected: Seq<usize>, removed: usize) -> Seq<usize>
    decreases selected.len(),
{
    if selected.len() == 0 {
        Seq::empty()
    } else {
        let front = closed_up(selected.drop_last(), removed);
        let i = selected.last();
        if i == removed {
            front
        } else if i > removed {
            front.push((i - 1) as usize)
        } else {
            front.push(i)
        }
    }
}

/// An overlay with another text.
pub open spec fn retexted(o: OverlayView, to: Seq<char>) -> OverlayView {
    match o {
        OverlayView::Text { x, y, size_pt, color, .. } => OverlayView::Text {
            text: to,
            x,
            y,
            size_pt,
            color,
        },
        _ => o,
    }
}

impl AppView {
    /// The overlay that is being edited is a text.
    pub open spec fn edits_text(self) -> bool {
        match self.editing {
            Some(i) => self.overlay(i) matches Some(OverlayView::Text { .. }),
            None => false,
        }
    }

    /// The state without an editor.
    pub open spec fn edit_closed(self) -> AppView {
        AppView {
            editing: None,
            editing_just_focused: false,
            edit_cursor_range: None,
            ..self
        }
    }

    /// The state after a frame of the editor.
    pub open spec fn edited(self, input: Option<EditView>) -> AppView {
        match (self.editing, input) {
            (Some(i), Some(input)) => {
                let text = input.final_text();
                let typed = self.with_overlays(
                    self.overlays().update(i as int, retexted(self.overlays()[i as int], text)),
                );
                if !input.ends() {
                    AppView {
                        edit_cursor_range: input.cursor_range,
                        editing_just_focused: true,
                        ..typed
                    }
                } else if text.len() == 0 {
                    AppView {
                        selected: closed_up(self.selected, i),
                        ..self.with_overlays(self.overlays().remove(i as int)).edit_closed()
                    }
                } else if input.esc || input.shift_enter {
                    AppView { selected: Seq::empty(), ..typed.edit_closed() }
                } else {
                    typed.edit_closed()
                }
            },
            (Some(_), None) => self.edit_closed(),
            (None, _) => self,
        }
    }
}

proof fn lemma_closed_up(selected: Seq<usize>, removed: usize)
    requires
        selected.no_duplicates(),
    ensures
        closed_up(selected, removed).no_duplicates(),
        forall|k: int|
            0 <= k < closed_up(selected, removed).len() ==> {
                let i = #[trigger] closed_up(selected, removed)[k];
                ||| i < removed && selected.contains(i)
                ||| i >= removed && i < usize::MAX && selected.contains((i + 1) as usize)
            },
    decreases selected.len(),
{
    if selected.len() > 0 {
        let front = selected.drop_last();
        assert(front.no_duplicates());
        lemma_closed_up(front, removed);
        let before = closed_up(front, removed);
        let after = closed_up(selected, removed);
        let last = selected.last();
        assert forall|i: usize| front.contains(i) implies selected.contains(i) && i != last by {
            let k = choose|k: int| 0 <= k < front.len() && front[k] == i;
            assert(selected[k] == i);
        }
        assert(selected[selected.len() - 1] == last);
        assert(selected.contains(last));
        assert forall|k: int| 0 <= k < after.len() implies {
            let i = #[trigger] after[k];
            ||| i < removed && selected.contains(i)
            ||| i >= removed && i < usize::MAX && selected.contains((i + 1) as usize)
        } by {
            if k < before.len() {
                assert(after[k] == before[k]);
            }
        }
        if last != removed {
            let new = if last > removed {
                (last - 1) as usize
            } else {
                last
            };
            assert(!before.contains(new)) by {
                if before.contains(new) {
                    let k = choose|k: int| 0 <= k < before.len() && before[k] == new;
                    assert(before[k] == new);
                }
            }
            assert(after.no_duplicates());
        }
    }
}

fn close_up(selected: &Vec<usize>, removed: usize) -> (r: Vec<usize>)
    requires
        selected@.no_duplicates(),
    ensures
        r@ == closed_up(selected@, removed),
        r@.no_duplicates(),
{
    let n = selected.len();
    let mut r: Vec<usize> = Vec::new();
    let mut k: usize = 0;
    assert(selected@.take(0) =~= Seq::empty());
    while k < n
        invariant
            n == selected.len(),
            k <= n,
            r@ == closed_up(selected@.take(k as int), removed),
        decreases n - k,
    {
        let i = selected[k];
        assert(selected@.take(k + 1).drop_last() =~= selected@.take(k as int));
        if i > removed {
            r.push(i - 1);
        } else if i < removed {
            r.push(i);
        }
        k += 1;
    }
    assert(selected@.take(n as int) =~= selected@);
    proof {
        lemma_closed_up(selected@, removed);
    }
    r
}

fn set_text(o: &mut Overlay, to: String)
    requires
        old(o)@.wf(),
    ensures
        final(o)@ == retexted(old(o)@, to@),
        final(o)@.wf(),
{
    match o {
        Overlay::Text { text, x: _, y: _, size_pt: _, color: _ } => {
            *text = to;
        },
        _ => {},
    }
}

/// The content of optional editor input.
pub open spec fn edit_view(input: Option<EditInput>) -> Option<EditView> {
    match input {
        Some(input) => Some(input@),
        None => None,
    }
}

impl App {
    fn close_edit(&mut self)
        requires
            old(self).wf(),
        ensures
            final(self)@ == old(self)@.edit_closed(),
            final(self).wf(),
    {
        self.editing = None;
        self.editing_just_focused = false;
        self.edit_cursor_range = None;
    }

    fn set_text_at(&mut self, i: usize, text: String)
        requires
            old(self).wf(),
            old(self)@.has_page(),
            i < old(self)@.overlays().len(),
        ensures
            final(self)@ == old(self)@.with_overlays(
                old(self)@.overlays().update(
                    i as int,
                    retexted(old(self)@.overlays()[i as int], text@),
                ),
            ),
            final(self).wf(),
    {
        proof {
            assert(self@.pages[self.current as int].wf());
        }
        let ghost before = self@.overlays();
        let overlays = self.overlays_mut();
        assert(before[i as int].wf());
        assert(before[i as int] == overlays@[i as int]@);
        set_text(&mut overlays[i], text);
        assert(overlay_views(overlays@) =~= before.update(
            i as int,
            retexted(before[i as int], text@),
        ));
    }

    fn remove_edited(&mut self, i: usize)
        requires
            old(self).wf(),
            old(self)@.has_page(),
            i < old(self)@.overlays().len(),
        ensures
            final(self)@ == (AppView {
                selected: closed_up(old(self)@.selected, i),
                ..old(self)@.with_overlays(old(self)@.overlays().remove(i as int))
            }),
            final(self).wf(),
    {
        proof {
            assert(self@.pages[self.current as int].wf());
        }
        let ghost before = self@.overlays();
        self.selected = close_up(&self.selected, i);
        let overlays = self.overlays_mut();
        overlays.remove(i);
        assert(overlay_views(overlays@) =~= before.remove(i as int));
        assert(overlays_wf(before.remove(i as int))) by {
            assert forall|k: int| 0 <= k < before.remove(i as int).len() implies (
            #[trigger] before.remove(i as int)[k]).wf() by {
                assert(before[if k < i {
                    k
                } else {
                    k + 1
                }].wf());
            }
        }
    }

    /// A frame of the editor. The input is there exactly if what is being edited is a
    /// text; otherwise the editor closes.
    pub fn handle_edit(&mut self, input: Option<EditInput>)
        requires
            old(self).wf(),
            old(self)@.has_page() || old(self)@.editing is None,
            old(self)@.editing is Some ==> (input is Some) == old(self)@.edits_text(),
        ensures
            final(self)@ == old(self)@.edited(edit_view(input)),
            final(self).wf(),
    {
        let i = match self.editing {
            Some(i) => i,
            None => return,
        };
        let input = match input {
            Some(input) => input,
            None => {
                self.close_edit();
                return;
            },
        };
        let ghost view = input@;
        let EditInput { mut text, cursor_range, esc, shift_enter, lost_focus } = input;
        if shift_enter && ends_with_break(&text) {
            text.pop();
        }
        assert(text@ == view.final_text());
        let empty = text.as_str().unicode_len() == 0;
        if !(esc || shift_enter || lost_focus) {
            self.set_text_at(i, text);
            self.edit_cursor_range = cursor_range;
            self.editing_just_focused = true;
        } else if empty {
            self.close_edit();
            self.remove_edited(i);
        } else {
            self.set_text_at(i, text);
            self.close_edit();
            if esc || shift_enter {
                self.selected = Vec::new();
                assert(self.selected@ =~= Seq::empty());
            }
        }
    }
}

fn ends_with_break(text: &String) -> (r: bool)
    ensures
        r == (text@.len() > 0 && text@.last() == '\n'),
{
    let n = text.as_str().unicode_len();
    n > 0 && text.as_str().get_char(n - 1) == '\n'
}

/// Where an overlay is after another has been removed.
pub open spec fn index_after(i: usize, removed: usize) -> usize {
    if i > removed {
        (i - 1) as usize
    } else {
        i
    }
}

proof fn lemma_closed_up_keeps(selected: Seq<usize>, removed: usize, i: usize)
    requires
        selected.contains(i),
        i != removed,
    ensures
        closed_up(selected, removed).contains(index_after(i, removed)),
    decreases selected.len(),
{
    let front = selected.drop_last();
    let before = closed_up(front, removed);
    let after = closed_up(selected, removed);
    let k = choose|k: int| 0 <= k < selected.len() && selected[k] == i;
    if k < front.len() {
        assert(front[k] == i);
        lemma_closed_up_keeps(front, removed, i);
        let m = choose|m: int| 0 <= m < before.len() && before[m] == index_after(i, removed);
        assert(after[m] == index_after(i, removed));
    } else {
        assert(after[after.len() - 1] == index_after(i, removed));
    }
}

/// An edit that ends leaves no empty text behind: the overlay is removed. Whatever
/// else was selected stays selected, at its new place.
pub proof fn empty_text_is_removed(app: AppView, input: EditView, i: usize)
    requires
        app.wf(),
        app.has_page(),
        app.edits_text(),
        input.ends(),
        input.final_text().len() == 0,
        app.selected.contains(i),
        i < app.overlays().len(),
        app.editing != Some(i),
    ensures
        app.edited(Some(input)).editing is None,
        app.edited(Some(input)).overlays() == app.overlays().remove(app.editing->Some_0 as int),
        app.edited(Some(input)).selected.contains(index_after(i, app.editing->Some_0)),
        app.edited(Some(input)).overlay(index_after(i, app.editing->Some_0)) == Some(
            app.overlays()[i as int],
        ),
{
    lemma_closed_up_keeps(app.selected, app.editing->Some_0, i);
}

} // verus!
