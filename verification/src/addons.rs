//! The addons window's state: open or not, and which plugin awaits
//! confirmation of its removal.
use vstd::prelude::*;

verus! {

/// Action requested by the Addons window that the app must handle.
pub enum AddonsAction {
    /// Re-scan the plugins directory.
    Reload,
    /// Delete a plugin and remove it from the host.
    Remove(String),
    /// Toggle a plugin's enabled state and save config.
    Toggle(String),
}

/// A persistent window for browsing and managing installed addons.
pub struct AddonsWindow {
    pub open: bool,
    /// Plugin name waiting for remove confirmation. `None` = no pending confirm.
    pub confirm_remove: Option<String>,
}

impl Default for AddonsWindow {
    fn default() -> (w: Self)
        ensures
            !w.open,
            w.confirm_remove is None,
    {
        AddonsWindow { open: false, confirm_remove: None }
    }
}

/// What the user clicked in a plugin's row during one frame.
pub enum RowClick {
    /// Nothing.
    Nothing,
    /// The enabled checkbox changed.
    Toggle,
    /// "Remove" (shown while no removal of this plugin is pending).
    Remove,
    /// "Cancel" (shown while its removal is pending).
    Cancel,
    /// "Confirm remove" (shown while its removal is pending).
    Confirm,
}

/// What a frame of a plugin row asks of the application.
pub enum RowOutcome {
    Nothing,
    Toggle,
    Remove,
}

/// The pending removal, by name.
pub open spec fn pending_view(p: Option<String>) -> Option<Seq<char>> {
    match p {
        Some(n) => Some(n@),
        None => None,
    }
}

/// One frame of the row of plugin `name`: the pending removal afterwards
/// and what the row asks for. "Remove" only asks for confirmation; the
/// removal comes from "Confirm remove" while this plugin's removal is
/// pending, and clears it; "Cancel" clears it too.
pub open spec fn row_step(pending: Option<Seq<char>>, name: Seq<char>, click: RowClick) -> (
    Option<Seq<char>>,
    RowOutcome,
) {
    let mine = pending == Some(name);
    match click {
        RowClick::Toggle => (pending, RowOutcome::Toggle),
        RowClick::Remove => if mine {
            (pending, RowOutcome::Nothing)
        } else {
            (Some(name), RowOutcome::Nothing)
        },
        RowClick::Cancel => if mine {
            (None, RowOutcome::Nothing)
        } else {
            (pending, RowOutcome::Nothing)
        },
        RowClick::Confirm => if mine {
            (None, RowOutcome::Remove)
        } else {
            (pending, RowOutcome::Nothing)
        },
        RowClick::Nothing => (pending, RowOutcome::Nothing),
    }
}

/// The pending removal after the row of `name` has seen `clicks`, one per
/// frame, starting from `pending`.
pub open spec fn row_run(pending: Option<Seq<char>>, name: Seq<char>, clicks: Seq<RowClick>) -> Option<
    Seq<char>,
>
    decreases clicks.len(),
{
    if clicks.len() == 0 {
        pending
    } else {
        row_step(row_run(pending, name, clicks.drop_last()), name, clicks.last()).0
    }
}

impl AddonsWindow {
    /// One frame of the row of plugin `name`, given what was clicked: the
    /// action the row writes, if any.
    pub fn row_click(&mut self, name: &String, click: RowClick) -> (a: Option<AddonsAction>)
        ensures
            final(self).open == old(self).open,
            pending_view(final(self).confirm_remove) == row_step(
                pending_view(old(self).confirm_remove),
                name@,
                click,
            ).0,
            match row_step(pending_view(old(self).confirm_remove), name@, click).1 {
                RowOutcome::Nothing => a is None,
                RowOutcome::Toggle => a matches Some(AddonsAction::Toggle(n)) && n@ == name@,
                RowOutcome::Remove => a matches Some(AddonsAction::Remove(n)) && n@ == name@,
            },
    {
        let mine = self.is_confirming(name);
        match click {
            RowClick::Toggle => Some(AddonsAction::Toggle(name.clone())),
            RowClick::Remove => {
                if !mine {
                    self.ask_remove(name.clone());
                }
                None
            },
            RowClick::Cancel => {
                if mine {
                    self.cancel_remove();
                }
                None
            },
            RowClick::Confirm => {
                if mine {
                    self.confirm()
                } else {
                    None
                }
            },
            RowClick::Nothing => None,
        }
    }

    /// Whether the removal of `name` awaits confirmation.
    pub fn is_confirming(&self, name: &String) -> (b: bool)
        ensures
            b == (self.confirm_remove matches Some(n) && n@ == name@),
    {
        match &self.confirm_remove {
            Some(n) => *n == *name,
            None => false,
        }
    }

    /// The user asked to remove `name`: ask for confirmation.
    pub fn ask_remove(&mut self, name: String)
        ensures
            final(self).confirm_remove == Some(name),
            final(self).open == old(self).open,
    {
        self.confirm_remove = Some(name);
    }

    /// The user cancelled the pending removal.
    pub fn cancel_remove(&mut self)
        ensures
            final(self).confirm_remove is None,
            final(self).open == old(self).open,
    {
        self.confirm_remove = None;
    }

    /// The user confirmed the pending removal: the action to perform, and
    /// nothing pending any more.
    pub fn confirm(&mut self) -> (a: Option<AddonsAction>)
        ensures
            final(self).confirm_remove is None,
            final(self).open == old(self).open,
            match old(self).confirm_remove {
                Some(n) => a == Some(AddonsAction::Remove(n)),
                None => a is None,
            },
    {
        match self.confirm_remove.take() {
            Some(n) => Some(AddonsAction::Remove(n)),
            None => None,
        }
    }
}

proof fn lemma_pending_needs_ask(start: Option<Seq<char>>, name: Seq<char>, clicks: Seq<RowClick>)
    requires
        start != Some(name),
        row_run(start, name, clicks) == Some(name),
    ensures
        exists|j: int| 0 <= j < clicks.len() && clicks[j] == RowClick::Remove,
    decreases clicks.len(),
{
    if clicks.len() > 0 {
        let before = row_run(start, name, clicks.drop_last());
        let c = clicks.last();
        assert(clicks[clicks.len() - 1] == c);
        if c != RowClick::Remove {
            assert(before == Some(name));
            lemma_pending_needs_ask(start, name, clicks.drop_last());
            let j = choose|j: int|
                0 <= j < clicks.drop_last().len() && clicks.drop_last()[j] == RowClick::Remove;
            assert(clicks[j] == RowClick::Remove);
        }
    }
}

/// A plugin is removed only after confirmation: over a run of frames of the
/// row of `name`, starting with no removal of it pending, the frame that
/// asks to remove `name` is a click on "Confirm remove" while its removal is
/// pending, some earlier frame clicked "Remove", and afterwards nothing is
/// pending.
pub proof fn law_remove_needs_confirmation(
    start: Option<Seq<char>>,
    name: Seq<char>,
    clicks: Seq<RowClick>,
    k: int,
)
    requires
        start != Some(name),
        0 <= k < clicks.len(),
        row_step(row_run(start, name, clicks.take(k)), name, clicks[k]).1 == RowOutcome::Remove,
    ensures
        clicks[k] == RowClick::Confirm,
        row_run(start, name, clicks.take(k)) == Some(name),
        row_step(row_run(start, name, clicks.take(k)), name, clicks[k]).0 is None,
        exists|j: int| 0 <= j < k && clicks[j] == RowClick::Remove,
{
    lemma_pending_needs_ask(start, name, clicks.take(k));
    let j = choose|j: int| 0 <= j < clicks.take(k).len() && clicks.take(k)[j] == RowClick::Remove;
    assert(clicks[j] == RowClick::Remove);
}

} // verus!
