//! The row of GRAFCET tabs: which tab is shown, which part of the row is
//! visible, and what creating or deleting a tab does to the project.
use vstd::prelude::*;
use vstd::string::*;
use crate::project::{NamedGrafcetView, Project, starter_grafcet};
use crate::text::{str_trim, string_of, trim_spec};

verus! {

/// Number of tabs visible at once.
pub const TABS_PAGE: usize = 8;

/// The offset of the visible part of the row: moved so that the active tab is
/// visible, then kept within the row (0 when every tab fits).
pub open spec fn window_offset(active: int, offset: int, total: int, page: int) -> int {
    let o = if active < offset {
        active
    } else if total > 0 && active >= offset + page {
        if active - (page - 1) > 0 {
            active - (page - 1)
        } else {
            0
        }
    } else {
        offset
    };
    if total <= page {
        0
    } else if o < total - page {
        o
    } else {
        total - page
    }
}

/// Offset of the visible part of the row (see `window_offset`).
pub fn visible_offset(active: usize, offset: usize, total: usize, page: usize) -> (r: usize)
    requires
        page >= 1,
        offset + page <= usize::MAX,
    ensures
        r as int == window_offset(active as int, offset as int, total as int, page as int),
        active < total ==> r <= active < r + page,
        r + page <= total || r == 0,
{
    let o = if active < offset {
        active
    } else if total > 0 && active >= offset + page {
        active.saturating_sub(page - 1)
    } else {
        offset
    };
    if total <= page {
        0
    } else if o < total - page {
        o
    } else {
        total - page
    }
}

/// Whether the arrows to earlier and to later tabs are shown.
pub fn arrows(offset: usize, total: usize, page: usize) -> (r: (bool, bool))
    requires
        offset + page <= usize::MAX,
    ensures
        r.0 == (offset > 0),
        r.1 == (total > page && offset + page < total),
{
    (offset > 0, total > page && offset + page < total)
}

/// Offset after an arrow: one tab back (`step` < 0) or forward (`step` > 0),
/// kept between 0 and the last full page.
pub fn scroll_offset(offset: usize, step: i32, total: usize, page: usize) -> (r: usize)
    requires
        -1 <= step <= 1,
        offset < usize::MAX,
    ensures
        r as int == {
            let hi = if total >= page { total - page } else { 0 };
            let o = offset + step;
            if o < 0 {
                0
            } else if o > hi {
                hi
            } else {
                o
            }
        },
{
    let hi = total.saturating_sub(page);
    let o = if step < 0 {
        if offset == 0 {
            return 0;
        }
        offset - 1
    } else if step > 0 {
        offset + 1
    } else {
        offset
    };
    if o > hi {
        hi
    } else {
        o
    }
}

/// Index of the tab whose content is shown: the active one, or the last
/// when the active index is past the end (0 when there is none).
pub fn shown_tab(active: usize, total: usize) -> (r: usize)
    ensures
        r as int == if total == 0 {
            0
        } else if active < total {
            active as int
        } else {
            total - 1
        },
{
    let last = total.saturating_sub(1);
    if active < last {
        active
    } else {
        last
    }
}

/// Active tab after deleting tab `deleted`: one less when the deleted tab was
/// at or before it (never below 0).
pub fn tab_after_delete(active: usize, deleted: usize) -> (r: usize)
    ensures
        r as int == if deleted <= active && active > 0 {
            active - 1
        } else {
            active as int
        },
{
    if deleted <= active {
        active.saturating_sub(1)
    } else {
        active
    }
}

impl Project {
    /// Creates a user GRAFCET named after the trimmed `text`; nothing happens
    /// when that name is empty. Returns the index of the new tab.
    pub fn create_grafcet(&mut self, text: &str) -> (r: Option<usize>)
        ensures
            trim_spec(text@).len() == 0 ==> r.is_none() && final(self).grafcets@ == old(self).grafcets@,
            trim_spec(text@).len() > 0 ==> {
                &&& r == Some(old(self).grafcets@.len() as usize)
                &&& final(self).grafcets@.len() == old(self).grafcets@.len() + 1
                &&& forall|i: int| 0 <= i < old(self).grafcets@.len() ==> #[trigger] final(self).grafcets@[i] == old(self).grafcets@[i]
                &&& final(self).grafcets@.last()@ == (NamedGrafcetView {
                    name: trim_spec(text@),
                    short_name: None,
                    description: None,
                    grafcet: starter_grafcet(),
                    generated: false,
                })
            },
            final(self).name == old(self).name,
            final(self).description == old(self).description,
            final(self).documentation == old(self).documentation,
            final(self).gemma == old(self).gemma,
    {
        let name = string_of(str_trim(text));
        if name.as_str().unicode_len() == 0 {
            None
        } else {
            let idx = self.add_grafcet(name);
            Some(idx)
        }
    }

    /// Deletes the GRAFCET of tab `idx` and returns its name; nothing happens
    /// when there is no such tab.
    pub fn delete_grafcet(&mut self, idx: usize) -> (r: Option<String>)
        ensures
            idx >= old(self).grafcets@.len() ==> r.is_none() && final(self).grafcets@ == old(self).grafcets@,
            idx < old(self).grafcets@.len() ==> {
                &&& r matches Some(n) && n@ == old(self).grafcets@[idx as int].name@
                &&& final(self).grafcets@ == old(self).grafcets@.remove(idx as int)
            },
            final(self).name == old(self).name,
            final(self).gemma == old(self).gemma,
    {
        if idx < self.grafcets.len() {
            let ng = self.grafcets.remove(idx);
            Some(ng.name)
        } else {
            None
        }
    }
}

} // verus!
