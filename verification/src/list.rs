//! Selection state for scrollable lists: wrap-around navigation over a
//! length, kept apart from anything that is drawn. The interactive front end
//! implements [`SelectableList`] for its widget states; [`Selection`] is the
//! plain implementation, and [`DummyList`] navigates over a bare length.

use vstd::prelude::*;

verus! {

/// A cursor holding a selected index or none.
pub trait SelectableList: Sized {
    spec fn spec_selected(&self) -> Option<usize>;

    fn selected(&self) -> (r: Option<usize>)
        ensures
            r == self.spec_selected(),
    ;

    fn select(&mut self, index: Option<usize>)
        ensures
            final(self).spec_selected() == index,
    ;
}

/// The plain selection cursor.
#[derive(Debug, Clone, Copy)]
pub struct Selection {
    pub selected: Option<usize>,
}

impl Selection {
    pub fn new() -> (r: Selection)
        ensures
            r.spec_selected() is None,
    {
        Selection { selected: None }
    }
}

impl SelectableList for Selection {
    open spec fn spec_selected(&self) -> Option<usize> {
        self.selected
    }

    fn selected(&self) -> (r: Option<usize>)
        ensures
            r == self.spec_selected(),
    {
        self.selected
    }

    fn select(&mut self, index: Option<usize>)
        ensures
            final(self).spec_selected() == index,
    {
        self.selected = index;
    }
}

/// Where `next` moves a selection: one forward, wrapping to the start; an
/// unselected or empty list selects slot 0.
pub open spec fn spec_next_index(sel: Option<usize>, len: usize) -> usize {
    match sel {
        None => 0usize,
        Some(i) => if len == 0 || i >= len - 1 {
            0usize
        } else {
            (i + 1) as usize
        },
    }
}

/// Where `previous` moves a selection: one back, wrapping to the end; an
/// unselected list selects slot 0, an empty one stays at 0.
pub open spec fn spec_previous_index(sel: Option<usize>, len: usize) -> usize {
    match sel {
        None => 0usize,
        Some(i) => if i == 0 {
            if len == 0 {
                0usize
            } else {
                (len - 1) as usize
            }
        } else {
            (i - 1) as usize
        },
    }
}

/// Wrap-around navigation over a list of some length.
pub trait ListOperations: Sized {
    spec fn spec_len(&self) -> usize;

    spec fn spec_selected(&self) -> Option<usize>;

    fn len(&self) -> (r: usize)
        ensures
            r == self.spec_len(),
    ;

    fn selected(&self) -> (r: Option<usize>)
        ensures
            r == self.spec_selected(),
    ;

    fn select_inner(&mut self, index: Option<usize>)
        ensures
            final(self).spec_selected() == index,
            final(self).spec_len() == old(self).spec_len(),
    ;

    /// Moves the selection one forward, wrapping to the start.
    fn next(&mut self)
        ensures
            final(self).spec_len() == old(self).spec_len(),
            final(self).spec_selected() == Some(
                spec_next_index(old(self).spec_selected(), old(self).spec_len()),
            ),
    {
        let i: usize = match self.selected() {
            Some(i) => {
                let l = self.len();
                if l == 0 || i >= l - 1 {
                    0
                } else {
                    i + 1
                }
            },
            None => 0,
        };
        self.select_inner(Some(i));
    }

    /// Moves the selection one back, wrapping to the end.
    fn previous(&mut self)
        ensures
            final(self).spec_len() == old(self).spec_len(),
            final(self).spec_selected() == Some(
                spec_previous_index(old(self).spec_selected(), old(self).spec_len()),
            ),
    {
        let i: usize = match self.selected() {
            Some(i) => {
                if i == 0 {
                    let l = self.len();
                    if l == 0 {
                        0
                    } else {
                        l - 1
                    }
                } else {
                    i - 1
                }
            },
            None => 0,
        };
        self.select_inner(Some(i));
    }

    fn has_selection(&self) -> (r: bool)
        ensures
            r == (self.spec_selected() is Some),
    {
        self.selected().is_some()
    }

    fn select(&mut self, index: usize)
        ensures
            final(self).spec_selected() == Some(index),
            final(self).spec_len() == old(self).spec_len(),
    {
        self.select_inner(Some(index));
    }

    fn unselect(&mut self)
        ensures
            final(self).spec_selected() is None,
            final(self).spec_len() == old(self).spec_len(),
    {
        self.select_inner(None);
    }
}

/// A selectable run of slots that carries no items, only a length.
pub struct DummyList<S: SelectableList> {
    pub state: S,
    pub len: usize,
}

impl<S: SelectableList> ListOperations for DummyList<S> {
    open spec fn spec_len(&self) -> usize {
        self.len
    }

    open spec fn spec_selected(&self) -> Option<usize> {
        self.state.spec_selected()
    }

    fn len(&self) -> (r: usize)
        ensures
            r == self.spec_len(),
    {
        self.len
    }

    fn selected(&self) -> (r: Option<usize>)
        ensures
            r == self.spec_selected(),
    {
        self.state.selected()
    }

    fn select_inner(&mut self, index: Option<usize>)
        ensures
            final(self).spec_selected() == index,
            final(self).spec_len() == old(self).spec_len(),
    {
        self.state.select(index);
    }
}

/// Which way a list is sorted.
#[derive(Debug, Clone, Copy, PartialEq, Eq, Structural)]
pub enum SortOrder {
    Asc,
    Desc,
}

impl SortOrder {
    pub open spec fn spec_reverse(&self) -> SortOrder {
        match self {
            SortOrder::Asc => SortOrder::Desc,
            SortOrder::Desc => SortOrder::Asc,
        }
    }

    /// The opposite order.
    pub fn reverse(&self) -> (r: SortOrder)
        ensures
            r == self.spec_reverse(),
    {
        match self {
            SortOrder::Asc => SortOrder::Desc,
            SortOrder::Desc => SortOrder::Asc,
        }
    }
}

} // verus!
