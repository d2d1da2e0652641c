//! Type-ahead search in the file table: sessions, jumps and filters.

use crate::file_table::{
    can_search, lemma_cursor_goes_where_it_is_asked, lemma_matches_rise, matches_of, only_selection,
    FileTableDelegate, JumpMatch, QuickSearchState,
};
use crate::listing::{
    is_order, lemma_all_visible, lemma_row_of, lemma_shown_is_filtered, lemma_visible, next_generation, passes_filter, visible,
    DirectoryModel, EntryId,
};
use crate::quick_search::{
    can_match, fuzzy_indices, fuzzy_score, goes_before, is_best, is_sorted_set_of, matched_places,
    matcher_takes, other_mode, pick_match, rows_rise, score_name, MouseMode, QuickSearchMode,
};
use crate::text::{decimal, push_decimal};
use vstd::prelude::*;

verus! {

/// Whether ending its session leads a table from `before` to `after`: the
/// session is gone, and with it any filter.
pub open spec fn search_cleared(before: FileTableDelegate, after: FileTableDelegate) -> bool {
    match before.quick_search {
        None => after == before,
        Some(session) => if session.mode == QuickSearchMode::Filter || before.model.passes is Some {
            &&& after.model.order@ == before.model.full_order@
            &&& after == (FileTableDelegate {
                quick_search: None,
                model: DirectoryModel {
                    passes: None,
                    order: after.model.order,
                    generation: next_generation(before.model.generation),
                    ..before.model
                },
                row_text: after.row_text,
                cached_generation: next_generation(before.model.generation),
                total_bytes_in_view: after.total_bytes_in_view,
                cursor_row: after.cursor_row,
                range_anchor: None,
                ..before
            })
        } else {
            after == (FileTableDelegate { quick_search: None, ..before })
        },
    }
}

/// The line that tells of a session.
pub open spec fn indicator_text(session: QuickSearchState) -> Seq<char> {
    match session.mode {
        QuickSearchMode::Jump => match session.jump_match {
            Some(m) => "find: "@ + session.query@ + " ("@ + decimal(m.ordinal as nat) + "/"@
                + decimal(m.total as nat) + ")"@,
            None => "find: "@ + session.query@ + " (no match)"@,
        },
        QuickSearchMode::Filter => {
            let count = match session.filter_match_count {
                Some(n) => n as nat,
                None => 0,
            };
            "filter: "@ + session.query@ + " ("@ + decimal(count) + (if count == 1 {
                " match)"@
            } else {
                " matches)"@
            })
        },
    }
}

/// The row that a search starts from.
pub open spec fn search_anchor(delegate: FileTableDelegate) -> int {
    match delegate.cursor_row {
        Some(r) => r as int,
        None => 0,
    }
}

/// Whether the session of `after` is that of `before` but for its match.
pub open spec fn same_session(before: FileTableDelegate, after: FileTableDelegate) -> bool {
    match (before.quick_search, after.quick_search) {
        (Some(b), Some(a)) => a == (QuickSearchState { jump_match: a.jump_match, ..b }),
        (None, None) => true,
        _ => false,
    }
}

/// Whether a search that found nothing leads from `before` to `after`: the
/// cursor stays, and the session has no match.
pub open spec fn found_nothing(before: FileTableDelegate, after: FileTableDelegate) -> bool {
    &&& after == (FileTableDelegate { quick_search: after.quick_search, ..before })
    &&& same_session(before, after)
    &&& after.quick_search is Some ==> after.quick_search->0.jump_match is None
}

/// Whether jumping to the match at `w` leads from `before` to `after`.
pub open spec fn jumped_to(
    before: FileTableDelegate,
    after: FileTableDelegate,
    matched: Seq<(usize, u32)>,
    w: int,
    indices: Seq<u32>,
) -> bool {
    &&& after == (FileTableDelegate { quick_search: after.quick_search, ..before }).moved_to(
        matched[w].0 + before.row_offset(),
    )
    &&& same_session(before, after)
    &&& after.quick_search is Some ==> {
        let m = after.quick_search->0.jump_match;
        &&& m is Some
        &&& m->0.ordinal == w + 1
        &&& m->0.total == matched.len()
        &&& m->0.model_row == matched[w].0
        &&& m->0.indices@ == indices
    }
}

/// Whether looking for `query` leads from `before` to `after`, with the
/// cursor on display row `row`: the best of the rows that match is jumped to.
pub open spec fn jumped(
    before: FileTableDelegate,
    after: FileTableDelegate,
    query: Seq<char>,
    row: Option<usize>,
) -> bool {
    let matched = matches_of(before.model, query, before.rows());
    match row {
        None => matched.len() == 0 && found_nothing(before, after),
        Some(r) => exists|w: int, indices: Seq<u32>|
            {
                &&& is_best(matched, search_anchor(before), w)
                &&& #[trigger] jumped_to(before, after, matched, w, indices)
                &&& is_sorted_set_of(
                    indices,
                    fuzzy_indices(query, before.model.entry_at(matched[w].0 as int).name@),
                )
                &&& r == matched[w].0 + before.row_offset()
                &&& after.shown_row() == Some(r as int)
            },
    }
}

/// Whether hiding what does not pass leads from `before` to `after`. A cursor
/// whose entry is hidden goes to the first row.
pub open spec fn filtered(
    before: FileTableDelegate,
    after: FileTableDelegate,
    passes: Vec<bool>,
) -> bool {
    let kept = DirectoryModel {
        passes: Some(passes),
        order: after.model.order,
        generation: next_generation(before.model.generation),
        ..before.model
    };
    &&& after.model.order@ == visible(before.model.full_order@, Some(passes))
    &&& if kept.cursor_place() is None && kept.order@.len() > 0 {
        &&& after.model == (DirectoryModel {
            cursor: Some(EntryId { index: kept.order@[0] }),
            ..kept
        })
        &&& after.cursor_row == Some(0usize)
        &&& !after.cursor_on_parent
    } else {
        &&& after.model == kept
        &&& after.cursor_on_parent == before.cursor_on_parent
    }
    &&& match (before.quick_search, after.quick_search) {
        (Some(b), Some(a)) => a == (QuickSearchState {
            filter_match_count: Some(after.model.order@.len() as usize),
            ..b
        }),
        (None, None) => true,
        _ => false,
    }
    &&& after == (FileTableDelegate {
        model: after.model,
        row_text: after.row_text,
        cached_generation: next_generation(before.model.generation),
        total_bytes_in_view: after.total_bytes_in_view,
        cursor_row: after.cursor_row,
        cursor_on_parent: after.cursor_on_parent,
        range_anchor: None,
        quick_search: after.quick_search,
        ..before
    })
}

/// Whether the session jumps to matches.
pub open spec fn jumps(delegate: FileTableDelegate) -> bool {
    delegate.quick_search is Some && delegate.quick_search->0.mode == QuickSearchMode::Jump
}

/// Whether applying its session's query leads a table from `before` to `after`,
/// with display row `row` to scroll to.
pub open spec fn searched(
    before: FileTableDelegate,
    after: FileTableDelegate,
    passes: Vec<bool>,
    row: Option<usize>,
) -> bool {
    match before.quick_search {
        None => after == before && row is None,
        Some(session) => match session.mode {
            QuickSearchMode::Jump => jumped(before, after, session.query@, row),
            QuickSearchMode::Filter => filtered(before, after, passes) && (match row {
                Some(r) => after.shown_row() == Some(r as int),
                None => after.shown_row() is None,
            }),
        },
    }
}

/// Whether a right click on display row `row` leads from `before` to `after`:
/// a session ends, the cursor goes there, and where the right button selects,
/// the row's selection is flipped.
pub open spec fn menu_prepared(
    before: FileTableDelegate,
    after: FileTableDelegate,
    row: int,
) -> bool {
    exists|cleared: FileTableDelegate|
        {
            let moved = cleared.moved_to(row);
            &&& #[trigger] search_cleared(before, cleared)
            &&& cleared.wf()
            &&& only_selection(moved, after)
            &&& after.model.selected@ == (match moved.cursor_row {
                Some(r) => if before.mouse_mode == MouseMode::Norton {
                    let id = moved.model.order@[r as int] as int;
                    moved.model.selected@.update(id, !moved.model.selected@[id])
                } else {
                    moved.model.selected@
                },
                None => moved.model.selected@,
            })
        }
}

/// Whether a filtering session began, or the session switched its regime and
/// kept its query, under a new number.
pub open spec fn regime_toggled(
    before: FileTableDelegate,
    after: FileTableDelegate,
    generation: u64,
) -> bool {
    &&& generation == before.search_count + 1
    &&& after == (FileTableDelegate {
        quick_search: after.quick_search,
        search_count: generation,
        ..before
    })
    &&& after.quick_search is Some
    &&& ({
        let session = after.quick_search->0;
        &&& session.generation == generation
        &&& session.jump_match is None
        &&& session.filter_match_count is None
        &&& match before.quick_search {
            Some(earlier) => session.mode == other_mode(earlier.mode) && session.query
                == earlier.query,
            None => session.mode == QuickSearchMode::Filter && session.query@.len() == 0,
        }
    })
}

impl FileTableDelegate {
    /// Ends the session, if there is one, and shows everything again.
    pub fn clear_quick_search(&mut self)
        requires
            old(self).wf(),
        ensures
            final(self).wf(),
            search_cleared(*old(self), *final(self)),
            final(self).quick_search is None,
    {
        let filtered = match &self.quick_search {
            None => {
                return;
            },
            Some(session) => session.mode == QuickSearchMode::Filter || self.model.passes.is_some(),
        };
        self.quick_search = None;
        if filtered {
            self.model.set_filter(None);
            proof {
                lemma_all_visible(self.model.full_order@);
            }
            self.rebuild_row_text();
            self.sync_cursor_row_from_model();
        }
    }

    pub fn quick_search_mode(&self) -> (mode: Option<QuickSearchMode>)
        ensures
            mode == (match self.quick_search {
                Some(session) => Some(session.mode),
                None => None,
            }),
    {
        match &self.quick_search {
            Some(session) => Some(session.mode),
            None => None,
        }
    }

    pub fn quick_search_generation(&self) -> (generation: Option<u64>)
        ensures
            generation == (match self.quick_search {
                Some(session) => Some(session.generation),
                None => None,
            }),
    {
        match &self.quick_search {
            Some(session) => Some(session.generation),
            None => None,
        }
    }

    /// The line that tells of the session.
    pub fn quick_search_indicator_text(&self) -> (text: Option<String>)
        ensures
            match text {
                Some(t) => self.quick_search is Some && t@ == indicator_text(self.quick_search->0),
                None => self.quick_search is None,
            },
    {
        let session = match &self.quick_search {
            Some(session) => session,
            None => {
                return None;
            },
        };
        let text = match session.mode {
            QuickSearchMode::Jump => match &session.jump_match {
                Some(m) => {
                    let mut text = "find: ".to_owned();
                    text.append(session.query.as_str());
                    text.append(" (");
                    push_decimal(&mut text, m.ordinal as u64);
                    text.append("/");
                    push_decimal(&mut text, m.total as u64);
                    text.append(")");
                    text
                },
                None => {
                    let mut text = "find: ".to_owned();
                    text.append(session.query.as_str());
                    text.append(" (no match)");
                    text
                },
            },
            QuickSearchMode::Filter => {
                let count: usize = match session.filter_match_count {
                    Some(n) => n,
                    None => 0,
                };
                let mut text = "filter: ".to_owned();
                text.append(session.query.as_str());
                text.append(" (");
                push_decimal(&mut text, count as u64);
                if count == 1 {
                    text.append(" match)");
                } else {
                    text.append(" matches)");
                }
                text
            },
        };
        Some(text)
    }

    /// A character was typed: it goes to the session's query, and to a new
    /// session where there is none. Returns the session's new number.
    pub fn push_quick_search_char(&mut self, c: char) -> (generation: u64)
        requires
            old(self).wf(),
            old(self).search_count < u64::MAX,
        ensures
            final(self).wf(),
            generation == old(self).search_count + 1,
            *final(self) == (FileTableDelegate {
                quick_search: final(self).quick_search,
                search_count: generation,
                ..*old(self)
            }),
            final(self).quick_search is Some,
            ({
                let after = final(self).quick_search->0;
                &&& after.generation == generation
                &&& match old(self).quick_search {
                    Some(before) => after == (QuickSearchState {
                        query: after.query,
                        generation,
                        ..before
                    }) && after.query@ == before.query@.push(c),
                    None => after.mode == old(self).quick_search_default_mode && after.query@
                        == seq![c] && after.jump_match is None && after.filter_match_count is None,
                }
            }),
    {
        let generation: u64 = self.search_count + 1;
        self.search_count = generation;
        if self.quick_search.is_none() {
            let mut query = String::new();
            query.push(c);
            assert(query@ =~= seq![c]);
            self.quick_search = Some(
                QuickSearchState {
                    mode: self.quick_search_default_mode,
                    query,
                    generation,
                    jump_match: None,
                    filter_match_count: None,
                },
            );
        } else if let Some(session) = &mut self.quick_search {
            session.query.push(c);
            session.generation = generation;
        }
        generation
    }

    /// The filter key: begins a filtering session where there is none, else
    /// switches the session's regime and keeps its query. Returns the
    /// session's new number.
    pub fn toggle_quick_filter(&mut self) -> (generation: u64)
        requires
            old(self).wf(),
            old(self).search_count < u64::MAX,
        ensures
            final(self).wf(),
            regime_toggled(*old(self), *final(self), generation),
    {
        let generation: u64 = self.search_count + 1;
        self.search_count = generation;
        if self.quick_search.is_none() {
            self.quick_search = Some(
                QuickSearchState {
                    mode: QuickSearchMode::Filter,
                    query: String::new(),
                    generation,
                    jump_match: None,
                    filter_match_count: None,
                },
            );
        } else if let Some(session) = &mut self.quick_search {
            session.mode = session.mode.toggled();
            session.generation = generation;
            session.jump_match = None;
            session.filter_match_count = None;
        }
        generation
    }

    /// An idle timer that was set for session number `generation` ran out.
    /// The session ends unless a newer keystroke has given it another number.
    /// Returns whether it ended.
    pub fn idle_timeout(&mut self, generation: u64) -> (ended: bool)
        requires
            old(self).wf(),
        ensures
            final(self).wf(),
            ended == (old(self).quick_search is Some && old(self).quick_search->0.generation
                == generation),
            ended ==> search_cleared(*old(self), *final(self)),
            !ended ==> *final(self) == *old(self),
    {
        let current = match &self.quick_search {
            Some(session) => session.generation == generation,
            None => false,
        };
        if current {
            self.clear_quick_search();
        }
        current
    }

    /// Whether the matcher can be asked for `query` in the names of all rows.
    pub fn takes_query(&self, query: &str) -> (takes: bool)
        requires
            self.wf(),
        ensures
            takes == can_search(self.model, query@),
    {
        let mut row: usize = 0;
        proof {
            self.model.lemma_rows();
        }
        while row < self.model.order.len()
            invariant
                self.wf(),
                is_order(self.model.order@, self.model.entries@.len()),
                row <= self.model.order@.len(),
                forall|r: int|
                    0 <= r < row ==> can_match(query@, (#[trigger] self.model.entry_at(r)).name@),
            decreases self.model.order@.len() - row,
        {
            let id: usize = self.model.order[row];
            if !matcher_takes(query, self.model.entries[id].name.as_str()) {
                assert(!can_match(query@, self.model.entry_at(row as int).name@));
                return false;
            }
            row = row + 1;
        }
        true
    }

    /// The rows that match `query`, with their scores.
    pub fn matched_rows(&self, query: &str) -> (matched: Vec<(usize, u32)>)
        requires
            self.wf(),
            can_search(self.model, query@),
        ensures
            matched@ == matches_of(self.model, query@, self.rows()),
            rows_rise(matched@),
            forall|i: int| 0 <= i < matched@.len() ==> (#[trigger] matched@[i]).0 < self.rows(),
    {
        let mut matched: Vec<(usize, u32)> = Vec::new();
        let mut row: usize = 0;
        proof {
            self.model.lemma_rows();
        }
        while row < self.model.order.len()
            invariant
                self.wf(),
                can_search(self.model, query@),
                is_order(self.model.order@, self.model.entries@.len()),
                row <= self.model.order@.len(),
                matched@ == matches_of(self.model, query@, row as int),
            decreases self.model.order@.len() - row,
        {
            let id: usize = self.model.order[row];
            assert(can_match(query@, self.model.entry_at(row as int).name@));
            if let Some(s) = score_name(query, self.model.entries[id].name.as_str()) {
                matched.push((row, s));
            }
            row = row + 1;
        }
        proof {
            lemma_matches_rise(self.model, query@, self.rows());
        }
        matched
    }

    /// Jumps to the match at `w` and records it. Returns the display row.
    pub fn jump_to(&mut self, matched: &Vec<(usize, u32)>, w: usize, indices: Vec<u32>) -> (row:
        usize)
        requires
            old(self).wf(),
            w < matched@.len(),
            matched@[w as int].0 < old(self).rows(),
            old(self).quick_search is Some ==> old(self).quick_search->0.mode
                == QuickSearchMode::Jump,
        ensures
            final(self).wf(),
            jumped_to(*old(self), *final(self), matched@, w as int, indices@),
            row == matched@[w as int].0 + old(self).row_offset(),
            final(self).shown_row() == Some(row as int),
    {
        proof {
            self.model.lemma_rows();
        }
        let target: usize = matched[w].0;
        let total: usize = matched.len();
        if let Some(session) = &mut self.quick_search {
            session.jump_match = Some(
                JumpMatch { ordinal: w + 1, total, model_row: target, indices },
            );
        }
        let row: usize = target + self.parent_offset();
        self.move_cursor_to(row);
        row
    }

    /// Looks for `query` among the names that are shown, jumps to the best
    /// match and records it. Returns the display row it is on.
    pub fn apply_quick_search_jump(&mut self, query: &str) -> (row: Option<usize>)
        requires
            old(self).wf(),
            can_search(old(self).model, query@),
            old(self).quick_search is Some ==> old(self).quick_search->0.mode
                == QuickSearchMode::Jump,
        ensures
            final(self).wf(),
            jumped(*old(self), *final(self), query@, row),
    {
        proof {
            self.lemma_cursor_row();
        }
        let anchor: usize = match self.cursor_row {
            Some(r) => r,
            None => 0,
        };
        let matched = self.matched_rows(query);
        let w: usize = match pick_match(&matched, anchor) {
            Some(w) => w,
            None => {
                if let Some(session) = &mut self.quick_search {
                    session.jump_match = None;
                }
                return None;
            },
        };
        let row: usize = matched[w].0;
        let id: usize = self.model.order[row];
        assert(can_match(query@, self.model.entry_at(row as int).name@));
        let indices = matched_places(query, self.model.entries[id].name.as_str());
        proof {
            lemma_matches_rise(self.model, query@, self.rows());
            assert(fuzzy_score(query@, self.model.entry_at(matched@[w as int].0 as int).name@) == Some(
                matched@[w as int].1,
            ));
        }
        let ghost places = indices@;
        let display = self.jump_to(&matched, w, indices);
        assert(jumped_to(*old(self), *self, matched@, w as int, places));
        Some(display)
    }

    /// Hides what does not pass the filter, taking the verdicts that the
    /// index gave for the session's query. A cursor whose entry is hidden
    /// goes to the first row. Returns the display row of the cursor.
    pub fn apply_quick_search_filter(&mut self, passes: Vec<bool>) -> (row: Option<usize>)
        requires
            old(self).wf(),
            passes@.len() == old(self).model.entries@.len(),
            old(self).quick_search is Some ==> old(self).quick_search->0.mode
                == QuickSearchMode::Filter,
        ensures
            final(self).wf(),
            filtered(*old(self), *final(self), passes),
            match row {
                Some(r) => final(self).shown_row() == Some(r as int),
                None => final(self).shown_row() is None,
            },
    {
        self.model.set_filter(Some(passes));
        self.rebuild_row_text();
        self.sync_cursor_row_from_model();
        if self.cursor_row.is_none() && self.model.order.len() > 0 {
            self.cursor_on_parent = false;
            self.set_cursor_row(Some(0));
        }
        let count: usize = self.model.order.len();
        if let Some(session) = &mut self.quick_search {
            session.filter_match_count = Some(count);
        }
        self.display_row()
    }

    /// Applies the session's query in the session's regime. `passes` are the
    /// index's verdicts on the query, which a filter takes.
    pub fn apply_quick_search(&mut self, passes: Vec<bool>) -> (row: Option<usize>)
        requires
            old(self).wf(),
            passes@.len() == old(self).model.entries@.len(),
            jumps(*old(self)) ==> can_search(old(self).model, old(self).quick_search->0.query@),
        ensures
            final(self).wf(),
            searched(*old(self), *final(self), passes, row),
    {
        let (mode, query) = match &self.quick_search {
            Some(session) => (session.mode, session.query.clone()),
            None => {
                return None;
            },
        };
        match mode {
            QuickSearchMode::Jump => self.apply_quick_search_jump(query.as_str()),
            QuickSearchMode::Filter => self.apply_quick_search_filter(passes),
        }
    }

    /// Applies the session's query in the session's regime, where the matcher
    /// can be asked for it. Else the table stays as it is, and `None` comes
    /// back.
    pub fn try_quick_search(&mut self, passes: Vec<bool>) -> (row: Option<Option<usize>>)
        requires
            old(self).wf(),
            passes@.len() == old(self).model.entries@.len(),
        ensures
            final(self).wf(),
            match row {
                Some(row) => {
                    &&& jumps(*old(self)) ==> can_search(
                        old(self).model,
                        old(self).quick_search->0.query@,
                    )
                    &&& searched(*old(self), *final(self), passes, row)
                },
                None => {
                    &&& jumps(*old(self))
                    &&& !can_search(old(self).model, old(self).quick_search->0.query@)
                    &&& *final(self) == *old(self)
                },
            },
    {
        let takes = match &self.quick_search {
            Some(session) => session.mode != QuickSearchMode::Jump || self.takes_query(
                session.query.as_str(),
            ),
            None => true,
        };
        if takes {
            Some(self.apply_quick_search(passes))
        } else {
            None
        }
    }

    /// A right click on a display row: the cursor goes there, and where the
    /// right button selects, the row's selection is flipped. Returns whether
    /// there is an entry to show a menu for.
    pub fn prepare_context_menu_row(&mut self, row_ix: usize) -> (prepared: bool)
        requires
            old(self).wf(),
        ensures
            final(self).wf(),
            prepared == !(old(self).has_parent_row && row_ix == 0),
            !prepared ==> *final(self) == *old(self),
            prepared ==> menu_prepared(*old(self), *final(self), row_ix as int),
    {
        if self.model_row(row_ix).is_none() {
            return false;
        }
        self.clear_quick_search();
        let ghost cleared = *self;
        self.move_cursor_to(row_ix);
        if self.mouse_mode == MouseMode::Norton {
            self.toggle_cursor_selection();
        }
        assert(search_cleared(*old(self), cleared));
        true
    }

    /// A right click on a display row: prepares the row for a menu. Returns
    /// whether the menu shows it as selected; `None` where there is no entry
    /// to show a menu for.
    pub fn context_menu(&mut self, row_ix: usize) -> (checked: Option<bool>)
        requires
            old(self).wf(),
        ensures
            final(self).wf(),
            old(self).has_parent_row && row_ix == 0 ==> checked is None && *final(self) == *old(self),
            !(old(self).has_parent_row && row_ix == 0) ==> menu_prepared(
                *old(self),
                *final(self),
                row_ix as int,
            ) && checked == Some(
                match final(self).cursor_row {
                    Some(r) => final(self).model.selected@[final(self).model.order@[r as int] as int],
                    None => false,
                },
            ),
    {
        if self.prepare_context_menu_row(row_ix) {
            Some(self.cursor_is_selected())
        } else {
            None
        }
    }

    /// Whether the entry under the cursor is selected.
    pub fn cursor_is_selected(&self) -> (selected: bool)
        requires
            self.wf(),
        ensures
            selected == (match self.cursor_row {
                Some(r) => self.model.selected@[self.model.order@[r as int] as int],
                None => false,
            }),
    {
        proof {
            self.lemma_cursor_row();
        }
        match self.cursor_row {
            Some(r) => self.model.selected[self.model.order[r]],
            None => false,
        }
    }
}

/// A filter that is cancelled leaves the rows and the selection as they were
/// before it began. The cursor is on the entry that it was on, unless that was
/// hidden and others were not.
pub proof fn lemma_filter_then_cancel(
    before: FileTableDelegate,
    begun: FileTableDelegate,
    generation: u64,
    hidden: FileTableDelegate,
    passes: Vec<bool>,
    after: FileTableDelegate,
)
    requires
        before.wf(),
        before.quick_search is None,
        before.model.passes is None,
        regime_toggled(before, begun, generation),
        filtered(begun, hidden, passes),
        search_cleared(hidden, after),
    ensures
        after.quick_search is None,
        after.model.passes is None,
        after.model.order@ == before.model.order@,
        after.model.entries == before.model.entries,
        after.model.selected == before.model.selected,
        after.model.sort == before.model.sort,
        hidden.model.order@.len() == 0 || hidden.model.cursor == before.model.cursor
            ==> after.model.cursor == before.model.cursor,
        hidden.model.order@ == visible(before.model.order@, Some(passes)),
{
    lemma_all_visible(before.model.full_order@);
    assert(hidden.quick_search is Some);
}

/// A timer that was set before a keystroke does not end the session that the
/// keystroke kept alive: no keystroke reuses a number.
pub proof fn lemma_stale_timer_is_harmless(
    before: FileTableDelegate,
    after: FileTableDelegate,
    timer: u64,
)
    requires
        before.wf(),
        timer <= before.search_count,
        after.quick_search is Some,
        after.quick_search->0.generation == before.search_count + 1,
    ensures
        after.quick_search->0.generation != timer,
{
}

/// The matches among the first `upto` rows are the rows that match, in their
/// order.
proof fn lemma_matches_are_the_rows_that_match(
    model: DirectoryModel,
    query: Seq<char>,
    upto: int,
    r: int,
)
    requires
        0 <= r < upto <= usize::MAX,
        fuzzy_score(query, model.entry_at(r).name@) is Some,
    ensures
        ({
            let i = matches_of(model, query, r + 1).len() - 1;
            let matched = matches_of(model, query, upto);
            &&& 0 <= i < matched.len()
            &&& matched[i] == (r as usize, fuzzy_score(query, model.entry_at(r).name@)->0)
        }),
    decreases upto,
{
    if upto > r + 1 {
        lemma_matches_are_the_rows_that_match(model, query, upto - 1, r);
    }
}

proof fn lemma_matches_counted(model: DirectoryModel, query: Seq<char>, upto: int)
    requires
        0 <= upto <= usize::MAX,
    ensures
        ({
            let rows = Set::new(
                |r: int| 0 <= r < upto && fuzzy_score(query, model.entry_at(r).name@) is Some,
            );
            rows.finite() && rows.len() == matches_of(model, query, upto).len()
        }),
    decreases upto,
{
    let rows = Set::new(
        |r: int| 0 <= r < upto && fuzzy_score(query, model.entry_at(r).name@) is Some,
    );
    if upto <= 0 {
        assert(rows =~= Set::<int>::empty());
    } else {
        lemma_matches_counted(model, query, upto - 1);
        let fewer = Set::new(
            |r: int| 0 <= r < upto - 1 && fuzzy_score(query, model.entry_at(r).name@) is Some,
        );
        if fuzzy_score(query, model.entry_at(upto - 1).name@) is Some {
            assert(rows =~= fewer.insert(upto - 1));
        } else {
            assert(rows =~= fewer);
        }
    }
}

/// Where a name that is shown matches, the cursor goes to a row that matches,
/// and no row goes before it: none scores higher, none that scores as high is
/// nearer to the row that the cursor was on, and of two that are as near the
/// upper one is taken. So a cursor whose own entry matches best stays.
pub proof fn lemma_jump_goes_to_the_nearest_of_the_best(
    before: FileTableDelegate,
    after: FileTableDelegate,
    query: Seq<char>,
    row: Option<usize>,
    r: int,
)
    requires
        before.wf(),
        jumped(before, after, query, row),
        0 <= r < before.model.order@.len(),
        fuzzy_score(query, before.model.entries@[before.model.order@[r] as int].name@) is Some,
    ensures
        row is Some,
        after.cursor_row is Some,
        !after.cursor_on_parent,
        row->0 == after.cursor_row->0 + (if before.has_parent_row {
            1int
        } else {
            0
        }),
        ({
            let w = after.cursor_row->0 as int;
            let order = before.model.order@;
            let best = fuzzy_score(query, before.model.entries@[order[w] as int].name@);
            let other = fuzzy_score(query, before.model.entries@[order[r] as int].name@);
            let far = |a: int, b: int| if a < b {
                b - a
            } else {
                a - b
            };
            &&& w < order.len()
            &&& after.model.cursor == Some(EntryId { index: order[w] })
            &&& best is Some
            &&& other->0 <= best->0
            &&& other == best ==> match before.cursor_row {
                Some(c) => {
                    &&& far(w, c as int) <= far(r, c as int)
                    &&& far(w, c as int) == far(r, c as int) ==> w <= r
                    &&& r == c ==> w == c
                },
                None => w <= r,
            }
        }),
{
    let matched = matches_of(before.model, query, before.rows());
    before.lemma_cursor_row();
    lemma_matches_are_the_rows_that_match(before.model, query, before.rows(), r);
    lemma_matches_rise(before.model, query, before.rows());
    let i = matches_of(before.model, query, r + 1).len() - 1;
    assert(matched[i].0 == r);
    let (w, indices) = choose|w: int, indices: Seq<u32>|
        {
            &&& is_best(matched, search_anchor(before), w)
            &&& #[trigger] jumped_to(before, after, matched, w, indices)
            &&& is_sorted_set_of(
                indices,
                fuzzy_indices(query, before.model.entry_at(matched[w].0 as int).name@),
            )
            &&& row->0 == matched[w].0 + before.row_offset()
            &&& after.shown_row() == Some(row->0 as int)
        };
    assert(matched[w].0 < before.rows());
    if i != w {
        assert(goes_before(matched[w], matched[i], search_anchor(before)));
    }
}

/// Where no name that is shown matches, the cursor stays where it was, on the
/// `..` row too. Whatever is found, the rows and the selection stay.
pub proof fn lemma_jump_without_a_match_stays(
    before: FileTableDelegate,
    after: FileTableDelegate,
    query: Seq<char>,
    row: Option<usize>,
)
    requires
        before.wf(),
        jumped(before, after, query, row),
    ensures
        after.model.order == before.model.order,
        after.model.selected == before.model.selected,
        after.model.entries == before.model.entries,
        (forall|r: int|
            0 <= r < before.model.order@.len() ==> fuzzy_score(
                query,
                before.model.entries@[#[trigger] before.model.order@[r] as int].name@,
            ) is None) ==> {
            &&& row is None
            &&& after.cursor_row == before.cursor_row
            &&& after.model.cursor == before.model.cursor
            &&& after.cursor_on_parent == before.cursor_on_parent
            &&& after.range_anchor == before.range_anchor
        },
{
    before.lemma_cursor_row();
    lemma_matches_rise(before.model, query, before.rows());
    let matched = matches_of(before.model, query, before.rows());
    if forall|r: int|
        0 <= r < before.model.order@.len() ==> fuzzy_score(
            query,
            before.model.entries@[#[trigger] before.model.order@[r] as int].name@,
        ) is None {
        if matched.len() > 0 {
            let r = matched[0].0 as int;
            assert(before.model.entry_at(r) == before.model.entries@[before.model.order@[r] as int]);
        }
    }
}

/// A session tells which of the matches is under the cursor, counted from the
/// top, how many there are, and which characters of the name under the cursor
/// matched.
pub proof fn lemma_jump_is_counted(
    before: FileTableDelegate,
    after: FileTableDelegate,
    query: Seq<char>,
    row: Option<usize>,
)
    requires
        before.wf(),
        jumped(before, after, query, row),
        row is Some,
        before.quick_search is Some,
    ensures
        after.quick_search is Some,
        after.quick_search->0.query == before.quick_search->0.query,
        after.quick_search->0.mode == before.quick_search->0.mode,
        after.quick_search->0.generation == before.quick_search->0.generation,
        after.quick_search->0.jump_match is Some,
        after.cursor_row is Some,
        ({
            let found = after.quick_search->0.jump_match->0;
            let w = after.cursor_row->0 as int;
            let matching = |r: int|
                0 <= r < before.model.order@.len() && fuzzy_score(
                    query,
                    before.model.entries@[before.model.order@[r] as int].name@,
                ) is Some;
            let all = Set::new(matching);
            let upper = Set::new(|r: int| matching(r) && r <= w);
            &&& found.model_row == w
            &&& all.finite() && found.total == all.len()
            &&& upper.finite() && found.ordinal == upper.len()
            &&& forall|i: int|
                0 <= i < found.indices@.len() - 1 ==> #[trigger] found.indices@[i]
                    < found.indices@[i + 1]
            &&& forall|place: u32|
                found.indices@.contains(place) <==> #[trigger] fuzzy_indices(
                    query,
                    before.model.entries@[before.model.order@[w] as int].name@,
                ).contains(place)
        }),
{
    let matched = matches_of(before.model, query, before.rows());
    before.lemma_cursor_row();
    lemma_matches_rise(before.model, query, before.rows());
    let (w, indices) = choose|w: int, indices: Seq<u32>|
        {
            &&& is_best(matched, search_anchor(before), w)
            &&& #[trigger] jumped_to(before, after, matched, w, indices)
            &&& is_sorted_set_of(
                indices,
                fuzzy_indices(query, before.model.entry_at(matched[w].0 as int).name@),
            )
            &&& row->0 == matched[w].0 + before.row_offset()
            &&& after.shown_row() == Some(row->0 as int)
        };
    let r = matched[w].0 as int;
    assert(r < before.rows());
    lemma_matches_are_the_rows_that_match(before.model, query, before.rows(), r);
    let i = matches_of(before.model, query, r + 1).len() - 1;
    assert(i == w) by {
        if i < w {
            assert(matched[i].0 < matched[w].0);
        } else if w < i {
            assert(matched[w].0 < matched[i].0);
        }
    }
    lemma_matches_counted(before.model, query, before.rows());
    lemma_matches_counted(before.model, query, r + 1);
    let matching = |k: int|
        0 <= k < before.model.order@.len() && fuzzy_score(
            query,
            before.model.entries@[before.model.order@[k] as int].name@,
        ) is Some;
    assert(Set::new(matching) =~= Set::new(
        |k: int|
            0 <= k < before.rows() && fuzzy_score(query, before.model.entry_at(k).name@) is Some,
    ));
    assert(Set::new(|k: int| matching(k) && k <= r) =~= Set::new(
        |k: int| 0 <= k < r + 1 && fuzzy_score(query, before.model.entry_at(k).name@) is Some,
    ));
}

/// A filter shows the entries that pass and no other, in the order that they
/// have without it. A cursor whose entry passes stays on that entry; else it is
/// on the first row. The selection stays, hidden entries included.
pub proof fn lemma_filter_shows_what_passes(
    before: FileTableDelegate,
    after: FileTableDelegate,
    passes: Vec<bool>,
)
    requires
        before.wf(),
        after.wf(),
        passes@.len() == before.model.entries@.len(),
        filtered(before, after, passes),
    ensures
        after.model.entries == before.model.entries,
        after.model.selected == before.model.selected,
        after.model.order@ == before.model.full_order@.filter(|id: usize| passes@[id as int]),
        before.model.cursor is Some && passes@[before.model.cursor->0.index as int]
            && before.model.full_order@.contains(before.model.cursor->0.index) ==> {
            &&& after.model.cursor == before.model.cursor
            &&& after.cursor_row is Some
            &&& after.model.order@[after.cursor_row->0 as int] == before.model.cursor->0.index
        },
        (before.model.cursor is None || !passes@[before.model.cursor->0.index as int])
            && after.model.order@.len() > 0 ==> after.cursor_row == Some(0usize)
            && !after.cursor_on_parent,
        after.quick_search is Some ==> after.quick_search->0.filter_match_count == Some(
            after.model.order@.len() as usize,
        ),
{
    let full = before.model.full_order@;
    lemma_shown_is_filtered(full, Some(passes));
    lemma_visible(full, Some(passes), before.model.entries@.len());
    after.lemma_cursor_row();
    let kept = DirectoryModel {
        passes: Some(passes),
        order: after.model.order,
        generation: next_generation(before.model.generation),
        ..before.model
    };
    if let Some(id) = before.model.cursor {
        lemma_row_of(after.model.order@, id.index, 0);
        if full.contains(id.index) && passes@[id.index as int] {
            assert(passes_filter(Some(passes), id.index));
            assert(visible(full, Some(passes)).contains(id.index));
            assert(kept.cursor_place() is Some);
        }
        if let Some(r) = kept.cursor_place() {
            assert(passes_filter(Some(passes), visible(full, Some(passes))[r]));
        }
    }
}

/// A session looks for what was typed, in its own regime: a jump lands on a name
/// that the query fits best, and a filter shows what passes.
pub proof fn lemma_session_looks_for_its_query(
    before: FileTableDelegate,
    after: FileTableDelegate,
    passes: Vec<bool>,
    row: Option<usize>,
    r: int,
)
    requires
        before.wf(),
        searched(before, after, passes, row),
        before.quick_search is Some,
        0 <= r < before.model.order@.len(),
    ensures
        before.quick_search->0.mode == QuickSearchMode::Filter ==> after.model.order@
            == before.model.full_order@.filter(|id: usize| passes@[id as int]),
        before.quick_search->0.mode == QuickSearchMode::Jump ==> {
            let query = before.quick_search->0.query@;
            let order = before.model.order@;
            let other = fuzzy_score(query, before.model.entries@[order[r] as int].name@);
            &&& after.model.order == before.model.order
            &&& other is Some ==> {
                &&& after.cursor_row is Some
                &&& fuzzy_score(
                    query,
                    before.model.entries@[order[after.cursor_row->0 as int] as int].name@,
                ) is Some
                &&& fuzzy_score(
                    query,
                    before.model.entries@[order[after.cursor_row->0 as int] as int].name@,
                )->0 >= other->0
            }
        },
{
    let session = before.quick_search->0;
    if session.mode == QuickSearchMode::Filter {
        lemma_shown_is_filtered(before.model.full_order@, Some(passes));
    } else {
        lemma_jump_without_a_match_stays(before, after, session.query@, row);
        if fuzzy_score(
            session.query@,
            before.model.entries@[before.model.order@[r] as int].name@,
        ) is Some {
            lemma_jump_goes_to_the_nearest_of_the_best(before, after, session.query@, row, r);
        }
    }
}

/// Ending a session shows every entry again. The entry under the cursor, the
/// selection and the listing stay, and so does the `..` row's cursor.
pub proof fn lemma_ending_a_session_shows_everything(
    before: FileTableDelegate,
    after: FileTableDelegate,
)
    requires
        before.wf(),
        after.wf(),
        search_cleared(before, after),
    ensures
        after.quick_search is None,
        before.quick_search is Some ==> after.model.order@ == before.model.full_order@
            && after.model.passes is None,
        before.quick_search is None ==> after == before,
        after.model.cursor == before.model.cursor,
        after.cursor_on_parent == before.cursor_on_parent,
        after.model.selected == before.model.selected,
        after.model.entries == before.model.entries,
        after.model.sort == before.model.sort,
        after.search_count == before.search_count,
        before.model.cursor is Some && before.model.full_order@.contains(
            before.model.cursor->0.index,
        ) && before.quick_search is Some ==> after.cursor_row is Some
            && after.model.order@[after.cursor_row->0 as int] == before.model.cursor->0.index,
{
    lemma_all_visible(before.model.full_order@);
    after.lemma_cursor_row();
    if let Some(id) = after.model.cursor {
        lemma_row_of(after.model.order@, id.index, 0);
    }
}

/// The filter key begins a filter with nothing typed; in a session it switches
/// between jumping and filtering, keeps what was typed, and pressed twice gives
/// the regime back. Every press has a number of its own, and touches no row.
pub proof fn lemma_filter_key(
    before: FileTableDelegate,
    once: FileTableDelegate,
    twice: FileTableDelegate,
    first: u64,
    second: u64,
)
    requires
        regime_toggled(before, once, first),
        regime_toggled(once, twice, second),
    ensures
        once.quick_search is Some && twice.quick_search is Some,
        before.search_count < first < second,
        once.quick_search->0.generation == first,
        once.model == before.model && once.cursor_row == before.cursor_row,
        match before.quick_search {
            None => once.quick_search->0.mode == QuickSearchMode::Filter
                && once.quick_search->0.query@.len() == 0,
            Some(session) => {
                &&& once.quick_search->0.query == session.query
                &&& once.quick_search->0.mode != session.mode
                &&& twice.quick_search->0.mode == session.mode
                &&& twice.quick_search->0.query == session.query
            },
        },
{
}

/// A right click leaves no session, puts the cursor on the row that was
/// clicked, or on the last, and selects nothing, but that where the right button
/// selects it flips the entry of that row, and no other.
pub proof fn lemma_right_click(before: FileTableDelegate, after: FileTableDelegate, row: int)
    requires
        before.wf(),
        menu_prepared(before, after, row),
        row >= (if before.has_parent_row {
            1int
        } else {
            0
        }),
        before.model.full_order@.len() > 0,
        before.quick_search is Some || before.model.order@.len() > 0,
    ensures
        after.quick_search is None,
        after.cursor_row is Some,
        !after.cursor_on_parent,
        ({
            let order = if before.quick_search is Some {
                before.model.full_order@
            } else {
                before.model.order@
            };
            let asked = if before.has_parent_row {
                row - 1
            } else {
                row
            };
            let at = if asked < order.len() {
                asked
            } else {
                order.len() - 1
            };
            &&& after.cursor_row == Some(at as usize)
            &&& after.model.order@ == order
            &&& forall|id: int|
                0 <= id < before.model.selected@.len() ==> #[trigger] after.model.selected@[id] == (
                if before.mouse_mode == MouseMode::Norton && id == order[at] {
                    !before.model.selected@[id]
                } else {
                    before.model.selected@[id]
                })
        }),
{
    lemma_all_visible(before.model.full_order@);
    let cleared = choose|cleared: FileTableDelegate|
        {
            let moved = cleared.moved_to(row);
            &&& #[trigger] search_cleared(before, cleared)
            &&& cleared.wf()
            &&& only_selection(moved, after)
            &&& after.model.selected@ == (match moved.cursor_row {
                Some(r) => if before.mouse_mode == MouseMode::Norton {
                    let id = moved.model.order@[r as int] as int;
                    moved.model.selected@.update(id, !moved.model.selected@[id])
                } else {
                    moved.model.selected@
                },
                None => moved.model.selected@,
            })
        };
    lemma_ending_a_session_shows_everything(before, cleared);
    cleared.lemma_cursor_row();
    lemma_cursor_goes_where_it_is_asked(cleared, row);
}

/// The line of a session says whether it looks for names or hides them, what was
/// typed, and what came of it: which match of how many, or how many entries pass.
pub proof fn lemma_indicator(session: QuickSearchState)
    ensures
        ({
            let text = indicator_text(session);
            let head = (if session.mode == QuickSearchMode::Jump {
                "find: "@
            } else {
                "filter: "@
            }) + session.query@ + " ("@;
            &&& head.is_prefix_of(text)
            &&& session.mode == QuickSearchMode::Jump ==> match session.jump_match {
                Some(m) => (decimal(m.ordinal as nat) + "/"@ + decimal(m.total as nat)
                    + ")"@).is_suffix_of(text),
                None => "no match)"@.is_suffix_of(text),
            }
            &&& session.mode == QuickSearchMode::Filter ==> ({
                let count = match session.filter_match_count {
                    Some(n) => n as nat,
                    None => 0,
                };
                &&& text.len() == head.len() + decimal(count).len() + (if count == 1 {
                    7int
                } else {
                    9
                })
                &&& text.skip(head.len() as int).take(decimal(count).len() as int) == decimal(count)
            })
        }),
{
    reveal_strlit(" (");
    reveal_strlit(" (no match)");
    reveal_strlit("no match)");
    reveal_strlit(" match)");
    reveal_strlit(" matches)");
    let text = indicator_text(session);
    let head = (if session.mode == QuickSearchMode::Jump {
        "find: "@
    } else {
        "filter: "@
    }) + session.query@ + " ("@;
    assert(text.take(head.len() as int) =~= head);
    match session.mode {
        QuickSearchMode::Jump => match session.jump_match {
            Some(m) => {
                let tail = decimal(m.ordinal as nat) + "/"@ + decimal(m.total as nat) + ")"@;
                assert(text.skip(text.len() - tail.len()) =~= tail);
            },
            None => {
                assert(text.skip(text.len() - 9) =~= "no match)"@);
            },
        },
        QuickSearchMode::Filter => {
            let count = match session.filter_match_count {
                Some(n) => n as nat,
                None => 0,
            };
            assert(text.skip(head.len() as int).take(decimal(count).len() as int) =~= decimal(
                count,
            ));
        },
    }
}

} // verus!
