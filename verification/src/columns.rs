//! Which columns the file table shows, in which order and how wide.
//!
//! Name is mandatory and elastic: it cannot be hidden, and it takes whatever
//! width the other columns leave. Widths are whole hundredths of a logical
//! pixel.

use crate::attributes_dialog::{push_symbolic_mode, symbolic_text};
use crate::text::{push_char, same_text};
use vstd::prelude::*;

verus! {

/// One logical pixel.
pub const PIXEL: u32 = 100;

/// The narrowest that Name is squeezed to before the table scrolls sideways.
pub const NAME_MIN: u32 = 6000;

/// Name's width while the panel has not been measured.
pub const NAME_IDEAL: u32 = 36000;

/// The narrowest that any other column can be dragged to.
pub const FIXED_MIN: u32 = 4000;

/// What the listing can be sorted by.
#[derive(Clone, Copy, Debug, PartialEq, Eq, Hash, Structural)]
pub enum SortColumn {
    Name,
    Extension,
    Size,
    Modified,
    Attributes,
}

/// What an entry of a listing is.
#[derive(Clone, Copy, Debug, PartialEq, Eq, Hash, Structural)]
pub enum EntryKind {
    Directory,
    File,
    Symlink,
    Fifo,
    Socket,
    BlockDevice,
    CharDevice,
    Unknown,
}

/// The columns that the table can show, in catalogue order.
#[derive(Clone, Copy, Debug, PartialEq, Eq, Hash, Structural)]
pub enum ColumnKind {
    Name,
    Extension,
    Size,
    Modified,
    Attributes,
}

/// The key of a column in the settings.
pub open spec fn key_text(kind: ColumnKind) -> Seq<char> {
    match kind {
        ColumnKind::Name => "name"@,
        ColumnKind::Extension => "ext"@,
        ColumnKind::Size => "size"@,
        ColumnKind::Modified => "modified"@,
        ColumnKind::Attributes => "attrs"@,
    }
}

/// The column that a key of the settings names.
pub open spec fn kind_of_key(key: Seq<char>) -> Option<ColumnKind> {
    if key == "name"@ {
        Some(ColumnKind::Name)
    } else if key == "ext"@ {
        Some(ColumnKind::Extension)
    } else if key == "size"@ {
        Some(ColumnKind::Size)
    } else if key == "modified"@ {
        Some(ColumnKind::Modified)
    } else if key == "attrs"@ {
        Some(ColumnKind::Attributes)
    } else {
        None
    }
}

/// Every column's key names that column.
pub proof fn lemma_keys_read_back(kind: ColumnKind)
    ensures
        kind_of_key(key_text(kind)) == Some(kind),
{
    reveal_strlit("name");
    reveal_strlit("ext");
    reveal_strlit("size");
    reveal_strlit("modified");
    reveal_strlit("attrs");
    assert("name"@[0] == 'n' && "size"@[0] == 's' && "attrs"@[0] == 'a');
    assert("ext"@.len() == 3 && "name"@.len() == 4 && "size"@.len() == 4 && "attrs"@.len() == 5
        && "modified"@.len() == 8);
}

pub open spec fn default_width_of(kind: ColumnKind) -> u32 {
    match kind {
        ColumnKind::Name => NAME_IDEAL,
        ColumnKind::Extension => 7000,
        ColumnKind::Size => 11000,
        ColumnKind::Modified => 17000,
        ColumnKind::Attributes => 11000,
    }
}

/// A column's place in the catalogue.
pub open spec fn catalogue_place(kind: ColumnKind) -> int {
    match kind {
        ColumnKind::Name => 0,
        ColumnKind::Extension => 1,
        ColumnKind::Size => 2,
        ColumnKind::Modified => 3,
        ColumnKind::Attributes => 4,
    }
}

impl ColumnKind {
    /// Every column, in catalogue order.
    pub fn all() -> (kinds: Vec<ColumnKind>)
        ensures
            kinds@.len() == 5,
            forall|kind: ColumnKind|
                #![trigger catalogue_place(kind)]
                kinds@[catalogue_place(kind)] == kind,
    {
        vec![
            ColumnKind::Name,
            ColumnKind::Extension,
            ColumnKind::Size,
            ColumnKind::Modified,
            ColumnKind::Attributes,
        ]
    }

    /// The key of this column in the settings.
    pub fn key(self) -> (key: &'static str)
        ensures
            key@ == key_text(self),
    {
        match self {
            ColumnKind::Name => "name",
            ColumnKind::Extension => "ext",
            ColumnKind::Size => "size",
            ColumnKind::Modified => "modified",
            ColumnKind::Attributes => "attrs",
        }
    }

    /// The column that `key` names.
    pub fn from_key(key: &str) -> (kind: Option<ColumnKind>)
        ensures
            kind == kind_of_key(key@),
    {
        if same_text(key, "name") {
            Some(ColumnKind::Name)
        } else if same_text(key, "ext") {
            Some(ColumnKind::Extension)
        } else if same_text(key, "size") {
            Some(ColumnKind::Size)
        } else if same_text(key, "modified") {
            Some(ColumnKind::Modified)
        } else if same_text(key, "attrs") {
            Some(ColumnKind::Attributes)
        } else {
            None
        }
    }

    /// The header's text.
    pub fn title(self) -> (title: &'static str)
        ensures
            title@ == (match self {
                ColumnKind::Name => "Name"@,
                ColumnKind::Extension => "Ext"@,
                ColumnKind::Size => "Size"@,
                ColumnKind::Modified => "Modified"@,
                ColumnKind::Attributes => "Attr"@,
            }),
    {
        match self {
            ColumnKind::Name => "Name",
            ColumnKind::Extension => "Ext",
            ColumnKind::Size => "Size",
            ColumnKind::Modified => "Modified",
            ColumnKind::Attributes => "Attr",
        }
    }

    /// The width of a column of which the layout says nothing else.
    pub fn default_width(self) -> (width: u32)
        ensures
            width == default_width_of(self),
    {
        match self {
            ColumnKind::Name => NAME_IDEAL,
            ColumnKind::Extension => 7000,
            ColumnKind::Size => 11000,
            ColumnKind::Modified => 17000,
            ColumnKind::Attributes => 11000,
        }
    }

    /// What a click on the header sorts by.
    pub fn sort_column(self) -> (column: SortColumn)
        ensures
            column == (match self {
                ColumnKind::Name => SortColumn::Name,
                ColumnKind::Extension => SortColumn::Extension,
                ColumnKind::Size => SortColumn::Size,
                ColumnKind::Modified => SortColumn::Modified,
                ColumnKind::Attributes => SortColumn::Attributes,
            }),
    {
        match self {
            ColumnKind::Name => SortColumn::Name,
            ColumnKind::Extension => SortColumn::Extension,
            ColumnKind::Size => SortColumn::Size,
            ColumnKind::Modified => SortColumn::Modified,
            ColumnKind::Attributes => SortColumn::Attributes,
        }
    }

    /// Sizes and dates stand at the right, texts at the left.
    pub fn right_aligned(self) -> (right: bool)
        ensures
            right == (self == ColumnKind::Size || self == ColumnKind::Modified),
    {
        matches!(self, ColumnKind::Size | ColumnKind::Modified)
    }

    /// Every column but Name can be hidden.
    pub fn removable(self) -> (r: bool)
        ensures
            r == (self != ColumnKind::Name),
    {
        self != ColumnKind::Name
    }

    /// This column's place in the catalogue.
    pub fn catalogue_index(self) -> (ix: usize)
        ensures
            ix == catalogue_place(self),
    {
        match self {
            ColumnKind::Name => 0,
            ColumnKind::Extension => 1,
            ColumnKind::Size => 2,
            ColumnKind::Modified => 3,
            ColumnKind::Attributes => 4,
        }
    }
}

/// One column of a layout. Name's width is what it has before the panel is
/// measured.
#[derive(Clone, Copy, Debug, PartialEq, Eq, Structural)]
pub struct ColumnEntry {
    pub kind: ColumnKind,
    pub width: u32,
}

/// A column as the settings name it. A width that is not a number is `None`,
/// as one that is not given.
#[derive(Debug, PartialEq, Eq)]
pub struct ColumnSpec {
    pub key: String,
    pub width: Option<u32>,
}

/// The columns of a view, in display order.
#[derive(Debug, PartialEq, Eq)]
pub struct ColumnLayout {
    pub columns: Vec<ColumnEntry>,
}

impl Clone for ColumnLayout {
    fn clone(&self) -> (copy: Self)
        ensures
            copy.columns@ == self.columns@,
    {
        let columns = self.columns.clone();
        assert(columns@ =~= self.columns@);
        ColumnLayout { columns }
    }
}

impl Default for ColumnLayout {
    /// Name, Size and Modified.
    fn default() -> (layout: Self)
        ensures
            layout.wf(),
            layout.columns@ == seq![
                default_entry(ColumnKind::Name),
                default_entry(ColumnKind::Size),
                default_entry(ColumnKind::Modified),
            ],
    {
        let kinds: Vec<ColumnKind> = vec![
            ColumnKind::Name,
            ColumnKind::Size,
            ColumnKind::Modified,
        ];
        let layout = ColumnLayout::from_kinds(&kinds);
        proof {
            let s = kinds@;
            reveal_with_fuel(first_of_each, 4);
            assert(s.drop_last().drop_last().drop_last().len() == 0);
            let one = first_of_each(s.drop_last().drop_last());
            assert(one =~= seq![default_entry(ColumnKind::Name)]);
            let two = first_of_each(s.drop_last());
            assert(two =~= seq![default_entry(ColumnKind::Name), default_entry(ColumnKind::Size)]);
            assert(first_of_each(s) =~= seq![
                default_entry(ColumnKind::Name),
                default_entry(ColumnKind::Size),
                default_entry(ColumnKind::Modified),
            ]);
            assert(has_kind(first_of_each(s), ColumnKind::Name)) by {
                assert(first_of_each(s)[0].kind == ColumnKind::Name);
            }
        }
        layout
    }
}

pub open spec fn default_entry(kind: ColumnKind) -> ColumnEntry {
    ColumnEntry { kind, width: default_width_of(kind) }
}

/// Whether `kind` is among `columns`.
pub open spec fn has_kind(columns: Seq<ColumnEntry>, kind: ColumnKind) -> bool {
    exists|i: int| 0 <= i < columns.len() && (#[trigger] columns[i]).kind == kind
}

/// Whether no column occurs twice.
pub open spec fn distinct_kinds(columns: Seq<ColumnEntry>) -> bool {
    forall|i: int, j: int|
        0 <= i < j < columns.len() ==> (#[trigger] columns[i]).kind != (#[trigger] columns[j]).kind
}

/// Whether the widths are ones that a layout stores: Name's fallback for
/// Name, and no less than the floor for the others.
pub open spec fn storable_widths(columns: Seq<ColumnEntry>) -> bool {
    forall|i: int|
        0 <= i < columns.len() ==> if (#[trigger] columns[i]).kind == ColumnKind::Name {
            columns[i].width == NAME_IDEAL
        } else {
            columns[i].width >= FIXED_MIN
        }
}

/// `kinds` in their order, each once, at their default widths.
pub open spec fn first_of_each(kinds: Seq<ColumnKind>) -> Seq<ColumnEntry>
    decreases kinds.len(),
{
    if kinds.len() == 0 {
        Seq::empty()
    } else {
        let before = first_of_each(kinds.drop_last());
        if has_kind(before, kinds.last()) {
            before
        } else {
            before.push(default_entry(kinds.last()))
        }
    }
}

/// The width that a column of the settings gets.
pub open spec fn spec_width(kind: ColumnKind, width: Option<u32>) -> u32 {
    if kind == ColumnKind::Name || width is None {
        default_width_of(kind)
    } else if width->0 < FIXED_MIN {
        FIXED_MIN
    } else {
        width->0
    }
}

/// The columns that the settings name, in their order, each at its first
/// occurrence. Unknown keys are passed over.
pub open spec fn read_specs(specs: Seq<ColumnSpec>) -> Seq<ColumnEntry>
    decreases specs.len(),
{
    if specs.len() == 0 {
        Seq::empty()
    } else {
        let before = read_specs(specs.drop_last());
        match kind_of_key(specs.last().key@) {
            None => before,
            Some(kind) => if has_kind(before, kind) {
                before
            } else {
                before.push(ColumnEntry { kind, width: spec_width(kind, specs.last().width) })
            },
        }
    }
}

/// `columns`, with Name in front where it is missing.
pub open spec fn with_name(columns: Seq<ColumnEntry>) -> Seq<ColumnEntry> {
    if has_kind(columns, ColumnKind::Name) {
        columns
    } else {
        seq![default_entry(ColumnKind::Name)] + columns
    }
}

/// The first place at or behind `from` whose column the catalogue lists after
/// `kind`, or the end.
pub open spec fn slot_for(columns: Seq<ColumnEntry>, kind: ColumnKind, from: int) -> int
    decreases columns.len() - from,
{
    if from < 0 || from >= columns.len() {
        columns.len() as int
    } else if catalogue_place(columns[from].kind) > catalogue_place(kind) {
        from
    } else {
        slot_for(columns, kind, from + 1)
    }
}

/// The place of `kind` among `columns`.
pub open spec fn place_of(columns: Seq<ColumnEntry>, kind: ColumnKind) -> Option<int> {
    if has_kind(columns, kind) {
        Some(choose|i: int| 0 <= i < columns.len() && (#[trigger] columns[i]).kind == kind)
    } else {
        None
    }
}

/// The columns after `kind` was shown or hidden.
pub open spec fn toggled(columns: Seq<ColumnEntry>, kind: ColumnKind) -> Seq<ColumnEntry> {
    if kind == ColumnKind::Name {
        columns
    } else {
        match place_of(columns, kind) {
            Some(i) => columns.remove(i),
            None => columns.insert(slot_for(columns, kind, 0), default_entry(kind)),
        }
    }
}

/// The width a column has after the table reported `width` for it.
pub open spec fn resized(entry: ColumnEntry, width: Option<u32>) -> ColumnEntry {
    if entry.kind == ColumnKind::Name || width is None {
        entry
    } else {
        let w = if width->0 < FIXED_MIN {
            FIXED_MIN
        } else {
            width->0
        };
        let change = if entry.width < w {
            w - entry.width
        } else {
            entry.width - w
        };
        if change >= PIXEL {
            ColumnEntry { kind: entry.kind, width: w }
        } else {
            entry
        }
    }
}

/// The widths of all columns but Name, added up.
pub open spec fn fixed_sum(columns: Seq<ColumnEntry>) -> nat
    decreases columns.len(),
{
    if columns.len() == 0 {
        0
    } else {
        fixed_sum(columns.drop_last()) + if columns.last().kind == ColumnKind::Name {
            0
        } else {
            columns.last().width as nat
        }
    }
}

/// Name's width in a table of `available` width.
pub open spec fn name_width(columns: Seq<ColumnEntry>, available: u32) -> int {
    if available - fixed_sum(columns) > NAME_MIN {
        available - fixed_sum(columns)
    } else {
        NAME_MIN as int
    }
}

proof fn lemma_place(columns: Seq<ColumnEntry>, i: int)
    requires
        distinct_kinds(columns),
        0 <= i < columns.len(),
    ensures
        place_of(columns, columns[i].kind) == Some(i),
{
    let kind = columns[i].kind;
    assert(has_kind(columns, kind));
    let j = place_of(columns, kind)->0;
    assert(0 <= j < columns.len() && columns[j].kind == kind);
    if j < i {
        assert(columns[j].kind != columns[i].kind);
    } else if i < j {
        assert(columns[i].kind != columns[j].kind);
    }
}

proof fn lemma_slot(columns: Seq<ColumnEntry>, kind: ColumnKind, from: int)
    requires
        0 <= from <= columns.len(),
    ensures
        from <= slot_for(columns, kind, from) <= columns.len(),
    decreases columns.len() - from,
{
    if from < columns.len() && catalogue_place(columns[from].kind) <= catalogue_place(kind) {
        lemma_slot(columns, kind, from + 1);
    }
}

proof fn lemma_slot_is(columns: Seq<ColumnEntry>, kind: ColumnKind, from: int, at: int)
    requires
        0 <= from <= at <= columns.len(),
        forall|i: int|
            from <= i < at ==> catalogue_place((#[trigger] columns[i]).kind) <= catalogue_place(
                kind,
            ),
        at < columns.len() ==> catalogue_place(columns[at].kind) > catalogue_place(kind),
    ensures
        slot_for(columns, kind, from) == at,
    decreases at - from,
{
    if from < at {
        assert(catalogue_place(columns[from].kind) <= catalogue_place(kind));
        lemma_slot_is(columns, kind, from + 1, at);
    }
}

proof fn lemma_insert_keeps(columns: Seq<ColumnEntry>, at: int, entry: ColumnEntry)
    requires
        distinct_kinds(columns),
        storable_widths(columns),
        0 <= at <= columns.len(),
        !has_kind(columns, entry.kind),
        entry.kind == ColumnKind::Name ==> entry.width == NAME_IDEAL,
        entry.kind != ColumnKind::Name ==> entry.width >= FIXED_MIN,
    ensures
        distinct_kinds(columns.insert(at, entry)),
        storable_widths(columns.insert(at, entry)),
        has_kind(columns.insert(at, entry), entry.kind),
        forall|kind: ColumnKind|
            has_kind(columns, kind) ==> has_kind(columns.insert(at, entry), kind),
{
    let after = columns.insert(at, entry);
    assert(after[at] == entry);
    assert forall|i: int, j: int| 0 <= i < j < after.len() implies (#[trigger] after[i]).kind != (
    #[trigger] after[j]).kind by {
        let oi = if i < at {
            i
        } else {
            i - 1
        };
        let oj = if j < at {
            j
        } else {
            j - 1
        };
        if i != at {
            assert(after[i] == columns[oi]);
        }
        if j != at {
            assert(after[j] == columns[oj]);
        }
    }
    assert forall|i: int| 0 <= i < after.len() implies if (#[trigger] after[i]).kind
        == ColumnKind::Name {
        after[i].width == NAME_IDEAL
    } else {
        after[i].width >= FIXED_MIN
    } by {
        if i < at {
            assert(after[i] == columns[i]);
        } else if i > at {
            assert(after[i] == columns[i - 1]);
        }
    }
    assert forall|kind: ColumnKind| has_kind(columns, kind) implies has_kind(after, kind) by {
        let i = choose|i: int| 0 <= i < columns.len() && (#[trigger] columns[i]).kind == kind;
        if i < at {
            assert(after[i] == columns[i]);
        } else {
            assert(after[i + 1] == columns[i]);
        }
    }
}

proof fn lemma_remove_keeps(columns: Seq<ColumnEntry>, at: int)
    requires
        distinct_kinds(columns),
        storable_widths(columns),
        0 <= at < columns.len(),
    ensures
        distinct_kinds(columns.remove(at)),
        storable_widths(columns.remove(at)),
        !has_kind(columns.remove(at), columns[at].kind),
        forall|kind: ColumnKind|
            has_kind(columns, kind) && kind != columns[at].kind ==> has_kind(
                columns.remove(at),
                kind,
            ),
{
    let after = columns.remove(at);
    assert forall|i: int| 0 <= i < after.len() implies #[trigger] after[i] == columns[if i < at {
        i
    } else {
        i + 1
    }] by {}
    assert forall|kind: ColumnKind| has_kind(columns, kind) && kind
        != columns[at].kind implies has_kind(after, kind) by {
        let i = choose|i: int| 0 <= i < columns.len() && (#[trigger] columns[i]).kind == kind;
        if i < at {
            assert(after[i] == columns[i]);
        } else {
            assert(after[i - 1] == columns[i]);
        }
    }
}

proof fn lemma_first_of_each(kinds: Seq<ColumnKind>)
    ensures
        distinct_kinds(first_of_each(kinds)),
        storable_widths(first_of_each(kinds)),
    decreases kinds.len(),
{
    if kinds.len() > 0 {
        let before = first_of_each(kinds.drop_last());
        lemma_first_of_each(kinds.drop_last());
        if !has_kind(before, kinds.last()) {
            lemma_insert_keeps(before, before.len() as int, default_entry(kinds.last()));
            assert(before.insert(before.len() as int, default_entry(kinds.last())) =~= before.push(
                default_entry(kinds.last()),
            ));
        }
    }
}

proof fn lemma_read_specs(specs: Seq<ColumnSpec>)
    ensures
        distinct_kinds(read_specs(specs)),
        storable_widths(read_specs(specs)),
    decreases specs.len(),
{
    if specs.len() > 0 {
        let before = read_specs(specs.drop_last());
        lemma_read_specs(specs.drop_last());
        if let Some(kind) = kind_of_key(specs.last().key@) {
            if !has_kind(before, kind) {
                let entry = ColumnEntry { kind, width: spec_width(kind, specs.last().width) };
                lemma_insert_keeps(before, before.len() as int, entry);
                assert(before.insert(before.len() as int, entry) =~= before.push(entry));
            }
        }
    }
}

fn find_kind(columns: &Vec<ColumnEntry>, kind: ColumnKind) -> (at: Option<usize>)
    ensures
        match at {
            Some(i) => i < columns@.len() && columns@[i as int].kind == kind && has_kind(
                columns@,
                kind,
            ) && forall|j: int| 0 <= j < i ==> (#[trigger] columns@[j]).kind != kind,
            None => !has_kind(columns@, kind),
        },
{
    let mut i: usize = 0;
    while i < columns.len()
        invariant
            i <= columns@.len(),
            forall|j: int| 0 <= j < i ==> (#[trigger] columns@[j]).kind != kind,
        decreases columns@.len() - i,
    {
        if columns[i].kind == kind {
            return Some(i);
        }
        i = i + 1;
    }
    None
}

impl ColumnLayout {
    /// Name is there, nothing occurs twice, and the widths are ones that a
    /// layout stores.
    pub open spec fn wf(self) -> bool {
        &&& has_kind(self.columns@, ColumnKind::Name)
        &&& distinct_kinds(self.columns@)
        &&& storable_widths(self.columns@)
    }

    fn from_entries(columns: Vec<ColumnEntry>) -> (layout: Self)
        requires
            distinct_kinds(columns@),
            storable_widths(columns@),
        ensures
            layout.wf(),
            layout.columns@ == with_name(columns@),
    {
        let mut layout = ColumnLayout { columns };
        layout.ensure_name();
        layout
    }

    fn ensure_name(&mut self)
        requires
            distinct_kinds(old(self).columns@),
            storable_widths(old(self).columns@),
        ensures
            final(self).wf(),
            final(self).columns@ == with_name(old(self).columns@),
    {
        if find_kind(&self.columns, ColumnKind::Name).is_none() {
            let entry = ColumnEntry { kind: ColumnKind::Name, width: NAME_IDEAL };
            proof {
                lemma_insert_keeps(self.columns@, 0, entry);
                assert(self.columns@.insert(0, entry) =~= with_name(self.columns@));
            }
            self.columns.insert(0, entry);
        }
    }

    /// `kinds` in that order, each once and at its default width; Name in
    /// front where it is missing.
    pub fn from_kinds(kinds: &Vec<ColumnKind>) -> (layout: Self)
        ensures
            layout.wf(),
            layout.columns@ == with_name(first_of_each(kinds@)),
    {
        let mut columns: Vec<ColumnEntry> = Vec::new();
        let mut i: usize = 0;
        assert(kinds@.take(0).len() == 0);
        while i < kinds.len()
            invariant
                i <= kinds@.len(),
                columns@ == first_of_each(kinds@.take(i as int)),
            decreases kinds@.len() - i,
        {
            let kind = kinds[i];
            assert(kinds@.take(i + 1).drop_last() =~= kinds@.take(i as int));
            assert(kinds@.take(i + 1).last() == kind);
            if find_kind(&columns, kind).is_none() {
                columns.push(ColumnEntry { kind, width: kind.default_width() });
            }
            i = i + 1;
        }
        assert(kinds@.take(i as int) =~= kinds@);
        proof {
            lemma_first_of_each(kinds@);
        }
        ColumnLayout::from_entries(columns)
    }

    /// Reads the columns that the settings name; `None` where they name none
    /// that is known.
    pub fn from_config(specs: &Vec<ColumnSpec>) -> (layout: Option<Self>)
        ensures
            match layout {
                Some(l) => l.wf() && read_specs(specs@).len() > 0 && l.columns@ == with_name(
                    read_specs(specs@),
                ),
                None => read_specs(specs@).len() == 0,
            },
    {
        let mut columns: Vec<ColumnEntry> = Vec::new();
        let mut i: usize = 0;
        assert(specs@.take(0).len() == 0);
        while i < specs.len()
            invariant
                i <= specs@.len(),
                columns@ == read_specs(specs@.take(i as int)),
            decreases specs@.len() - i,
        {
            assert(specs@.take(i + 1).drop_last() =~= specs@.take(i as int));
            assert(specs@.take(i + 1).last() == specs@[i as int]);
            if let Some(kind) = ColumnKind::from_key(specs[i].key.as_str()) {
                if find_kind(&columns, kind).is_none() {
                    let width: u32 = match specs[i].width {
                        Some(w) if kind != ColumnKind::Name => if w < FIXED_MIN {
                            FIXED_MIN
                        } else {
                            w
                        },
                        _ => kind.default_width(),
                    };
                    columns.push(ColumnEntry { kind, width });
                }
            }
            i = i + 1;
        }
        assert(specs@.take(i as int) =~= specs@);
        if columns.len() == 0 {
            return None;
        }
        proof {
            lemma_read_specs(specs@);
        }
        Some(ColumnLayout::from_entries(columns))
    }

    /// The columns as the settings name them. Name's width is left out.
    pub fn to_config(&self) -> (specs: Vec<ColumnSpec>)
        ensures
            specs@.len() == self.columns@.len(),
            forall|i: int|
                0 <= i < specs@.len() ==> names_column(#[trigger] specs@[i], self.columns@[i]),
    {
        let mut specs: Vec<ColumnSpec> = Vec::new();
        let mut i: usize = 0;
        while i < self.columns.len()
            invariant
                i <= self.columns@.len(),
                specs@.len() == i,
                forall|j: int|
                    0 <= j < i ==> names_column(#[trigger] specs@[j], self.columns@[j]),
            decreases self.columns@.len() - i,
        {
            let entry = self.columns[i];
            let width = if entry.kind == ColumnKind::Name {
                None
            } else {
                Some(entry.width)
            };
            specs.push(ColumnSpec { key: entry.kind.key().to_owned(), width });
            i = i + 1;
        }
        specs
    }

    /// The column at `col_ix`.
    pub fn kind_at(&self, col_ix: usize) -> (kind: Option<ColumnKind>)
        ensures
            kind == if col_ix < self.columns@.len() {
                Some(self.columns@[col_ix as int].kind)
            } else {
                None
            },
    {
        if col_ix < self.columns.len() {
            Some(self.columns[col_ix].kind)
        } else {
            None
        }
    }

    /// Where `kind` stands.
    pub fn index_of(&self, kind: ColumnKind) -> (ix: Option<usize>)
        requires
            self.wf(),
        ensures
            match ix {
                Some(i) => i < self.columns@.len() && place_of(self.columns@, kind) == Some(
                    i as int,
                ),
                None => place_of(self.columns@, kind) is None,
            },
    {
        let ix = find_kind(&self.columns, kind);
        proof {
            if let Some(i) = ix {
                lemma_place(self.columns@, i as int);
            }
        }
        ix
    }

    /// Whether `kind` is shown.
    pub fn contains(&self, kind: ColumnKind) -> (c: bool)
        ensures
            c == has_kind(self.columns@, kind),
    {
        find_kind(&self.columns, kind).is_some()
    }

    /// Shows `kind` where it is hidden, in front of the first column that the
    /// catalogue lists after it; hides it where it is shown. Name stays.
    /// Returns whether anything changed.
    pub fn toggle(&mut self, kind: ColumnKind) -> (changed: bool)
        requires
            old(self).wf(),
        ensures
            final(self).wf(),
            final(self).columns@ == toggled(old(self).columns@, kind),
            changed == (kind != ColumnKind::Name),
            kind != ColumnKind::Name ==> has_kind(final(self).columns@, kind) != has_kind(
                old(self).columns@,
                kind,
            ),
    {
        if !kind.removable() {
            return false;
        }
        let ghost before = self.columns@;
        if let Some(ix) = self.index_of(kind) {
            proof {
                lemma_remove_keeps(before, ix as int);
                assert(before[ix as int].kind == kind) by {
                    assert(has_kind(before, kind));
                }
            }
            self.columns.remove(ix);
            return true;
        }
        let mut at: usize = 0;
        while at < self.columns.len() && self.columns[at].kind.catalogue_index()
            <= kind.catalogue_index()
            invariant
                self.columns@ == before,
                at <= before.len(),
                forall|i: int|
                    0 <= i < at ==> catalogue_place((#[trigger] before[i]).kind)
                        <= catalogue_place(kind),
            decreases before.len() - at,
        {
            at = at + 1;
        }
        proof {
            lemma_slot_is(before, kind, 0, at as int);
            lemma_insert_keeps(before, at as int, default_entry(kind));
        }
        self.columns.insert(at, ColumnEntry { kind, width: kind.default_width() });
        true
    }

    /// Moves the column at `from` so that it stands at `to`. Returns whether
    /// anything changed.
    pub fn move_column(&mut self, from: usize, to: usize) -> (changed: bool)
        requires
            old(self).wf(),
        ensures
            final(self).wf(),
            changed == (from != to && from < old(self).columns@.len() && to
                < old(self).columns@.len()),
            final(self).columns@ == if changed {
                old(self).columns@.remove(from as int).insert(
                    to as int,
                    old(self).columns@[from as int],
                )
            } else {
                old(self).columns@
            },
    {
        if from == to || from >= self.columns.len() || to >= self.columns.len() {
            return false;
        }
        let ghost before = self.columns@;
        let entry = self.columns.remove(from);
        proof {
            lemma_remove_keeps(before, from as int);
            lemma_insert_keeps(self.columns@, to as int, entry);
        }
        self.columns.insert(to, entry);
        true
    }

    /// Takes the widths that the table reports after a drag, in display
    /// order; `None` is one that is not a number. Name's is passed over, the
    /// others are held to the floor, and a change of less than a pixel is
    /// none. Returns whether a stored width changed.
    pub fn set_widths(&mut self, widths: &Vec<Option<u32>>) -> (changed: bool)
        requires
            old(self).wf(),
        ensures
            final(self).wf(),
            final(self).columns@.len() == old(self).columns@.len(),
            forall|i: int|
                0 <= i < old(self).columns@.len() ==> #[trigger] final(self).columns@[i] == (if i
                    < widths@.len() {
                    resized(old(self).columns@[i], widths@[i])
                } else {
                    old(self).columns@[i]
                }),
            changed == (final(self).columns@ != old(self).columns@),
    {
        let ghost before = self.columns@;
        let mut changed = false;
        let mut i: usize = 0;
        while i < self.columns.len() && i < widths.len()
            invariant
                i <= before.len(),
                i <= widths@.len(),
                self.columns@.len() == before.len(),
                forall|j: int|
                    0 <= j < i ==> #[trigger] self.columns@[j] == resized(before[j], widths@[j]),
                forall|j: int| i <= j < before.len() ==> #[trigger] self.columns@[j] == before[j],
                changed == (self.columns@ != before),
            decreases before.len() - i,
        {
            let entry = self.columns[i];
            let ghost now = self.columns@;
            if entry.kind != ColumnKind::Name {
                if let Some(reported) = widths[i] {
                    let width: u32 = if reported < FIXED_MIN {
                        FIXED_MIN
                    } else {
                        reported
                    };
                    let change: u32 = if entry.width < width {
                        width - entry.width
                    } else {
                        entry.width - width
                    };
                    if change >= PIXEL {
                        self.columns.set(i, ColumnEntry { kind: entry.kind, width });
                        changed = true;
                        assert(self.columns@[i as int] != before[i as int]);
                    }
                }
            }
            i = i + 1;
        }
        proof {
            let after = self.columns@;
            assert forall|j: int| 0 <= j < before.len() implies (#[trigger] after[j]).kind
                == before[j].kind && (if after[j].kind == ColumnKind::Name {
                after[j].width == NAME_IDEAL
            } else {
                after[j].width >= FIXED_MIN
            }) by {
                assert(before[j].kind == before[j].kind);
            }
            let k = choose|k: int|
                0 <= k < before.len() && (#[trigger] before[k]).kind == ColumnKind::Name;
            assert(after[k].kind == ColumnKind::Name);
            assert(distinct_kinds(after)) by {
                assert forall|a: int, b: int| 0 <= a < b < after.len() implies (
                #[trigger] after[a]).kind != (#[trigger] after[b]).kind by {
                    assert(before[a].kind != before[b].kind);
                }
            }
        }
        changed
    }

    /// The widths of all columns but Name, added up.
    pub fn fixed_total(&self) -> (total: u64)
        requires
            self.wf(),
        ensures
            total == fixed_sum(self.columns@),
    {
        let mut total: u64 = 0;
        let mut i: usize = 0;
        proof {
            lemma_at_most_five(self.columns@);
        }
        while i < self.columns.len()
            invariant
                i <= self.columns@.len() <= 5,
                total == fixed_sum(self.columns@.take(i as int)),
                total <= i * u32::MAX,
            decreases self.columns@.len() - i,
        {
            let entry = self.columns[i];
            assert(self.columns@.take(i + 1).drop_last() =~= self.columns@.take(i as int));
            assert(self.columns@.take(i + 1).last() == entry);
            if entry.kind != ColumnKind::Name {
                total = total + entry.width as u64;
            }
            i = i + 1;
        }
        assert(self.columns@.take(i as int) =~= self.columns@);
        total
    }

    /// The widths in a table of `available` width: every other column at its
    /// stored width, Name taking the rest, down to its floor.
    pub fn responsive_widths(&self, available: u32) -> (widths: Vec<u32>)
        requires
            self.wf(),
        ensures
            widths@.len() == self.columns@.len(),
            forall|i: int|
                0 <= i < widths@.len() ==> #[trigger] widths@[i] == (if self.columns@[i].kind
                    == ColumnKind::Name {
                    name_width(self.columns@, available)
                } else {
                    self.columns@[i].width as int
                }),
    {
        let total = self.fixed_total();
        let name: u32 = if total < available as u64 && available as u64 - total > NAME_MIN as u64 {
            (available as u64 - total) as u32
        } else {
            NAME_MIN
        };
        let mut widths: Vec<u32> = Vec::new();
        let mut i: usize = 0;
        while i < self.columns.len()
            invariant
                i <= self.columns@.len(),
                widths@.len() == i,
                name == name_width(self.columns@, available),
                forall|j: int|
                    0 <= j < i ==> #[trigger] widths@[j] == (if self.columns@[j].kind
                        == ColumnKind::Name {
                        name_width(self.columns@, available)
                    } else {
                        self.columns@[j].width as int
                    }),
            decreases self.columns@.len() - i,
        {
            if self.columns[i].kind == ColumnKind::Name {
                widths.push(name);
            } else {
                widths.push(self.columns[i].width);
            }
            i = i + 1;
        }
        widths
    }
}

/// Whether `spec` names `entry`: its key, and its width unless it is Name.
pub open spec fn names_column(spec: ColumnSpec, entry: ColumnEntry) -> bool {
    &&& spec.key@ == key_text(entry.kind)
    &&& spec.width == if entry.kind == ColumnKind::Name {
        None
    } else {
        Some(entry.width)
    }
}

proof fn lemma_at_most_five(columns: Seq<ColumnEntry>)
    requires
        distinct_kinds(columns),
    ensures
        columns.len() <= 5,
{
    if columns.len() > 5 {
        assert(columns[0].kind != columns[1].kind);
        assert(columns[0].kind != columns[2].kind);
        assert(columns[0].kind != columns[3].kind);
        assert(columns[0].kind != columns[4].kind);
        assert(columns[0].kind != columns[5].kind);
        assert(columns[1].kind != columns[2].kind);
        assert(columns[1].kind != columns[3].kind);
        assert(columns[1].kind != columns[4].kind);
        assert(columns[1].kind != columns[5].kind);
        assert(columns[2].kind != columns[3].kind);
        assert(columns[2].kind != columns[4].kind);
        assert(columns[2].kind != columns[5].kind);
        assert(columns[3].kind != columns[4].kind);
        assert(columns[3].kind != columns[5].kind);
        assert(columns[4].kind != columns[5].kind);
    }
}

proof fn lemma_specs_read_back(specs: Seq<ColumnSpec>, columns: Seq<ColumnEntry>)
    requires
        specs.len() == columns.len(),
        distinct_kinds(columns),
        storable_widths(columns),
        forall|i: int| 0 <= i < specs.len() ==> names_column(#[trigger] specs[i], columns[i]),
    ensures
        read_specs(specs) == columns,
    decreases specs.len(),
{
    if specs.len() > 0 {
        let s = specs.drop_last();
        let c = columns.drop_last();
        assert forall|i: int| 0 <= i < s.len() implies names_column(#[trigger] s[i], c[i]) by {
            assert(names_column(specs[i], columns[i]));
        }
        lemma_specs_read_back(s, c);
        let last = columns.last();
        assert(names_column(specs[specs.len() - 1], columns[specs.len() - 1]));
        lemma_keys_read_back(last.kind);
        assert(!has_kind(c, last.kind)) by {
            if has_kind(c, last.kind) {
                let i = choose|i: int| 0 <= i < c.len() && (#[trigger] c[i]).kind == last.kind;
                assert(columns[i].kind != columns[columns.len() - 1].kind);
            }
        }
        assert(spec_width(last.kind, specs.last().width) == last.width) by {
            assert(columns[columns.len() - 1] == last);
        }
        assert(read_specs(specs) =~= columns);
    } else {
        assert(read_specs(specs) =~= columns);
    }
}

/// What a layout writes into the settings reads back as the same layout.
pub proof fn lemma_config_reads_back(layout: ColumnLayout, specs: Seq<ColumnSpec>)
    requires
        layout.wf(),
        specs.len() == layout.columns@.len(),
        forall|i: int|
            0 <= i < specs.len() ==> names_column(#[trigger] specs[i], layout.columns@[i]),
    ensures
        read_specs(specs).len() > 0,
        with_name(read_specs(specs)) == layout.columns@,
{
    lemma_specs_read_back(specs, layout.columns@);
}

/// Showing a hidden column and hiding it again leaves the layout as it was.
pub proof fn lemma_show_then_hide(layout: ColumnLayout, kind: ColumnKind)
    requires
        layout.wf(),
        !has_kind(layout.columns@, kind),
    ensures
        toggled(toggled(layout.columns@, kind), kind) == layout.columns@,
{
    let columns = layout.columns@;
    let at = slot_for(columns, kind, 0);
    lemma_slot(columns, kind, 0);
    let entry = default_entry(kind);
    lemma_insert_keeps(columns, at, entry);
    let shown = columns.insert(at, entry);
    assert(shown[at] == entry);
    lemma_place(shown, at);
    assert(shown.remove(at) =~= columns);
}

pub open spec fn sum_of(widths: Seq<u32>) -> nat
    decreases widths.len(),
{
    if widths.len() == 0 {
        0
    } else {
        sum_of(widths.drop_last()) + widths.last() as nat
    }
}

proof fn lemma_sum(columns: Seq<ColumnEntry>, widths: Seq<u32>, name: int)
    requires
        widths.len() == columns.len(),
        distinct_kinds(columns),
        forall|i: int|
            0 <= i < widths.len() ==> #[trigger] widths[i] == (if columns[i].kind
                == ColumnKind::Name {
                name
            } else {
                columns[i].width as int
            }),
    ensures
        sum_of(widths) == fixed_sum(columns) + if has_kind(columns, ColumnKind::Name) {
            name
        } else {
            0
        },
    decreases widths.len(),
{
    if widths.len() > 0 {
        let c = columns.drop_last();
        let w = widths.drop_last();
        assert forall|i: int| 0 <= i < w.len() implies #[trigger] w[i] == (if c[i].kind
            == ColumnKind::Name {
            name
        } else {
            c[i].width as int
        }) by {
            assert(widths[i] == w[i]);
        }
        lemma_sum(c, w, name);
        let n = columns.len() - 1;
        assert(widths[n] == widths.last());
        if columns.last().kind == ColumnKind::Name {
            assert(columns[n].kind == ColumnKind::Name);
            if has_kind(c, ColumnKind::Name) {
                let i = choose|i: int|
                    0 <= i < c.len() && (#[trigger] c[i]).kind == ColumnKind::Name;
                assert(columns[i].kind != columns[n].kind);
            }
        } else {
            if has_kind(columns, ColumnKind::Name) {
                let i = choose|i: int|
                    0 <= i < columns.len() && (#[trigger] columns[i]).kind == ColumnKind::Name;
                assert(c[i].kind == ColumnKind::Name);
            }
            if has_kind(c, ColumnKind::Name) {
                let i = choose|i: int|
                    0 <= i < c.len() && (#[trigger] c[i]).kind == ColumnKind::Name;
                assert(columns[i].kind == ColumnKind::Name);
            }
        }
    }
}

/// A table that leaves Name at least its floor is filled exactly.
pub proof fn lemma_columns_fill_the_table(layout: ColumnLayout, available: u32, widths: Seq<u32>)
    requires
        layout.wf(),
        available >= fixed_sum(layout.columns@) + NAME_MIN,
        widths.len() == layout.columns@.len(),
        forall|i: int|
            0 <= i < widths.len() ==> #[trigger] widths[i] == (if layout.columns@[i].kind
                == ColumnKind::Name {
                name_width(layout.columns@, available)
            } else {
                layout.columns@[i].width as int
            }),
    ensures
        sum_of(widths) == available,
{
    lemma_sum(layout.columns@, widths, name_width(layout.columns@, available));
}

/// The one layout that every table shows.
#[derive(Debug, PartialEq, Eq)]
pub struct ColumnLayoutStore {
    pub full: ColumnLayout,
}

impl ColumnLayoutStore {
    pub fn new(full: ColumnLayout) -> (store: Self)
        ensures
            store.full == full,
    {
        ColumnLayoutStore { full }
    }

    /// Replaces the layout. Returns whether it differs from the one before,
    /// that is whether the tables and the settings have to follow.
    pub fn set_full(&mut self, layout: ColumnLayout) -> (changed: bool)
        ensures
            changed == (old(self).full.columns@ != layout.columns@),
            final(self).full.columns@ == layout.columns@,
            !changed ==> *final(self) == *old(self),
    {
        if same_columns(&self.full.columns, &layout.columns) {
            return false;
        }
        self.full = layout;
        true
    }
}

fn same_columns(a: &Vec<ColumnEntry>, b: &Vec<ColumnEntry>) -> (same: bool)
    ensures
        same == (a@ == b@),
{
    if a.len() != b.len() {
        return false;
    }
    let mut i: usize = 0;
    while i < a.len()
        invariant
            i <= a@.len(),
            a@.len() == b@.len(),
            forall|j: int| 0 <= j < i ==> a@[j] == b@[j],
        decreases a@.len() - i,
    {
        if a[i] != b[i] {
            return false;
        }
        i = i + 1;
    }
    assert(a@ =~= b@);
    true
}

/// The character that stands for what an entry is.
pub open spec fn kind_char(kind: EntryKind) -> char {
    match kind {
        EntryKind::Directory => 'd',
        EntryKind::File => '-',
        EntryKind::Symlink => 'l',
        EntryKind::Fifo => 'p',
        EntryKind::Socket => 's',
        EntryKind::BlockDevice => 'b',
        EntryKind::CharDevice => 'c',
        EntryKind::Unknown => '?',
    }
}

/// The type character: that of the mode's type bits where they say one, else
/// that of the entry's kind.
pub open spec fn type_char(mode: Option<u32>, kind: EntryKind) -> char {
    match mode {
        None => kind_char(kind),
        Some(m) => {
            let bits = m & 0o170000;
            if bits == 0o040000 {
                'd'
            } else if bits == 0o100000 {
                '-'
            } else if bits == 0o120000 {
                'l'
            } else if bits == 0o010000 {
                'p'
            } else if bits == 0o140000 {
                's'
            } else if bits == 0o060000 {
                'b'
            } else if bits == 0o020000 {
                'c'
            } else {
                kind_char(kind)
            }
        },
    }
}

fn char_of_kind(kind: EntryKind) -> (c: char)
    ensures
        c == kind_char(kind),
{
    match kind {
        EntryKind::Directory => 'd',
        EntryKind::File => '-',
        EntryKind::Symlink => 'l',
        EntryKind::Fifo => 'p',
        EntryKind::Socket => 's',
        EntryKind::BlockDevice => 'b',
        EntryKind::CharDevice => 'c',
        EntryKind::Unknown => '?',
    }
}

/// Appends an entry's attributes as `ls -l` shows them; without a mode the
/// type character alone.
pub fn write_mode(out: &mut String, mode: Option<u32>, kind: EntryKind)
    ensures
        final(out)@ == old(out)@ + seq![type_char(mode, kind)] + (match mode {
            Some(m) => symbolic_text(m),
            None => Seq::empty(),
        }),
{
    let c = match mode {
        None => char_of_kind(kind),
        Some(m) => {
            let bits: u32 = m & 0o170000;
            if bits == 0o040000 {
                'd'
            } else if bits == 0o100000 {
                '-'
            } else if bits == 0o120000 {
                'l'
            } else if bits == 0o010000 {
                'p'
            } else if bits == 0o140000 {
                's'
            } else if bits == 0o060000 {
                'b'
            } else if bits == 0o020000 {
                'c'
            } else {
                char_of_kind(kind)
            }
        },
    };
    push_char(out, c);
    if let Some(m) = mode {
        push_symbolic_mode(out, m);
    }
    assert(out@ =~= old(out)@ + seq![type_char(mode, kind)] + (match mode {
        Some(m) => symbolic_text(m),
        None => Seq::empty(),
    }));
}

/// Each key names its column, and nothing else names one.
pub proof fn lemma_keys_of_columns(key: Seq<char>)
    ensures
        match kind_of_key(key) {
            Some(ColumnKind::Name) => key == "name"@,
            Some(ColumnKind::Extension) => key == "ext"@,
            Some(ColumnKind::Size) => key == "size"@,
            Some(ColumnKind::Modified) => key == "modified"@,
            Some(ColumnKind::Attributes) => key == "attrs"@,
            None => !seq!["name"@, "ext"@, "size"@, "modified"@, "attrs"@].contains(key),
        },
{
}

/// The catalogue lists Name, Extension, Size, Modified and Attributes, in that
/// order.
pub proof fn lemma_catalogue(kind: ColumnKind)
    ensures
        0 <= catalogue_place(kind) < 5,
        seq![
            ColumnKind::Name,
            ColumnKind::Extension,
            ColumnKind::Size,
            ColumnKind::Modified,
            ColumnKind::Attributes,
        ][catalogue_place(kind)] == kind,
{
}

/// Hiding a column takes that column away and leaves the others as they were, in
/// their order.
pub proof fn lemma_hide(layout: ColumnLayout, kind: ColumnKind, i: int)
    requires
        layout.wf(),
        kind != ColumnKind::Name,
        0 <= i < layout.columns@.len(),
        layout.columns@[i].kind == kind,
    ensures
        toggled(layout.columns@, kind) == layout.columns@.take(i) + layout.columns@.skip(i + 1),
{
    lemma_place(layout.columns@, i);
    assert(layout.columns@.remove(i) =~= layout.columns@.take(i) + layout.columns@.skip(i + 1));
}

/// Showing a column puts it, at its default width, behind every column up to the
/// first that the catalogue lists after it, and leaves the others as they were.
/// Name can be neither shown nor hidden.
pub proof fn lemma_show(layout: ColumnLayout, kind: ColumnKind)
    requires
        layout.wf(),
        forall|i: int|
            0 <= i < layout.columns@.len() ==> (#[trigger] layout.columns@[i]).kind != kind,
    ensures
        exists|at: int|
            {
                &&& 0 <= at <= layout.columns@.len()
                &&& toggled(layout.columns@, kind) == layout.columns@.take(at) + seq![
                    ColumnEntry { kind, width: default_width_of(kind) },
                ] + #[trigger] layout.columns@.skip(at)
                &&& forall|i: int|
                    0 <= i < at ==> catalogue_place((#[trigger] layout.columns@[i]).kind)
                        <= catalogue_place(kind)
                &&& at < layout.columns@.len() ==> catalogue_place(layout.columns@[at].kind)
                    > catalogue_place(kind)
            },
        toggled(layout.columns@, ColumnKind::Name) == layout.columns@,
{
    let columns = layout.columns@;
    let at = slot_for(columns, kind, 0);
    lemma_slot(columns, kind, 0);
    lemma_slot_stops(columns, kind, 0);
    assert(columns.insert(at, default_entry(kind)) =~= columns.take(at) + seq![
        ColumnEntry { kind, width: default_width_of(kind) },
    ] + columns.skip(at));
}

proof fn lemma_slot_stops(columns: Seq<ColumnEntry>, kind: ColumnKind, from: int)
    requires
        0 <= from <= columns.len(),
    ensures
        ({
            let at = slot_for(columns, kind, from);
            &&& forall|i: int|
                from <= i < at ==> catalogue_place((#[trigger] columns[i]).kind) <= catalogue_place(
                    kind,
                )
            &&& at < columns.len() ==> catalogue_place(columns[at].kind) > catalogue_place(kind)
        }),
    decreases columns.len() - from,
{
    if from < columns.len() && catalogue_place(columns[from].kind) <= catalogue_place(kind) {
        lemma_slot_stops(columns, kind, from + 1);
    }
}

/// A layout that is read has Name: where it was given, or else in front, with
/// everything that was given behind it.
pub proof fn lemma_name_is_there(columns: Seq<ColumnEntry>)
    ensures
        exists|i: int|
            0 <= i < with_name(columns).len() && (#[trigger] with_name(columns)[i]).kind
                == ColumnKind::Name,
        columns.is_suffix_of(with_name(columns)),
        with_name(columns).len() <= columns.len() + 1,
        (exists|i: int| 0 <= i < columns.len() && (#[trigger] columns[i]).kind == ColumnKind::Name)
            ==> with_name(columns) == columns,
{
    let named = with_name(columns);
    if has_kind(columns, ColumnKind::Name) {
        assert(columns.skip(0) =~= columns);
    } else {
        assert(named[0].kind == ColumnKind::Name);
        assert(named.skip(1) =~= columns);
    }
}

/// The width that the settings give a column is kept, but not below the floor;
/// Name has its own, and so has a column of which nothing is said.
pub proof fn lemma_width_of_settings(kind: ColumnKind, width: Option<u32>)
    ensures
        kind == ColumnKind::Name || width is None ==> spec_width(kind, width) == default_width_of(
            kind,
        ),
        kind != ColumnKind::Name && width is Some && width->0 >= FIXED_MIN ==> spec_width(
            kind,
            width,
        ) == width->0,
        kind != ColumnKind::Name ==> spec_width(kind, width) >= FIXED_MIN,
        kind != ColumnKind::Name && width is Some && width->0 < FIXED_MIN ==> spec_width(kind, width)
            == FIXED_MIN,
{
}

/// Each column that the settings name is read once, at its first occurrence and
/// with the width given there; what is no column is passed over.
pub proof fn lemma_settings_are_read(specs: Seq<ColumnSpec>, k: int, kind: ColumnKind)
    requires
        0 <= k < specs.len(),
        kind_of_key(specs[k].key@) == Some(kind),
        forall|j: int| 0 <= j < k ==> kind_of_key((#[trigger] specs[j]).key@) != Some(kind),
    ensures
        exists|i: int|
            {
                &&& 0 <= i < read_specs(specs).len()
                &&& (#[trigger] read_specs(specs)[i]).kind == kind
                &&& read_specs(specs)[i].width == spec_width(kind, specs[k].width)
            },
    decreases specs.len(),
{
    let rest = specs.drop_last();
    let before = read_specs(rest);
    let now = read_specs(specs);
    if k < rest.len() {
        assert(forall|j: int| 0 <= j < rest.len() ==> #[trigger] rest[j] == specs[j]);
        assert forall|j: int| 0 <= j < k implies kind_of_key((#[trigger] rest[j]).key@) != Some(
            kind,
        ) by {
            assert(kind_of_key(specs[j].key@) != Some(kind));
        }
        lemma_settings_are_read(rest, k, kind);
        let i = choose|i: int|
            {
                &&& 0 <= i < before.len()
                &&& (#[trigger] before[i]).kind == kind
                &&& before[i].width == spec_width(kind, specs[k].width)
            };
        assert(now[i] == before[i]);
    } else {
        lemma_only_named_columns(rest);
        assert(!has_kind(before, kind)) by {
            if has_kind(before, kind) {
                let i = choose|i: int| 0 <= i < before.len() && (#[trigger] before[i]).kind == kind;
                let j = choose|j: int|
                    0 <= j < rest.len() && kind_of_key((#[trigger] rest[j]).key@) == Some(
                        before[i].kind,
                    );
                assert(specs[j] == rest[j]);
            }
        }
        assert(now[now.len() - 1].kind == kind);
    }
}

/// Nothing is read that the settings do not name, and nothing twice; a column
/// that is named later stands further back.
pub proof fn lemma_only_named_columns(specs: Seq<ColumnSpec>)
    ensures
        forall|i: int|
            0 <= i < read_specs(specs).len() ==> exists|k: int|
                0 <= k < specs.len() && kind_of_key((#[trigger] specs[k]).key@) == Some(
                    (#[trigger] read_specs(specs)[i]).kind,
                ),
        forall|i: int, j: int|
            0 <= i < j < read_specs(specs).len() ==> (#[trigger] read_specs(specs)[i]).kind != (
            #[trigger] read_specs(specs)[j]).kind,
        specs.len() > 0 ==> read_specs(specs.drop_last()).is_prefix_of(read_specs(specs)),
    decreases specs.len(),
{
    lemma_read_specs(specs);
    if specs.len() > 0 {
        let rest = specs.drop_last();
        let before = read_specs(rest);
        let now = read_specs(specs);
        lemma_only_named_columns(rest);
        assert(now.take(before.len() as int) =~= before);
        assert forall|i: int| 0 <= i < now.len() implies exists|k: int|
            0 <= k < specs.len() && kind_of_key((#[trigger] specs[k]).key@) == Some(
                (#[trigger] now[i]).kind,
            ) by {
            if i < before.len() {
                let k = choose|k: int|
                    0 <= k < rest.len() && kind_of_key((#[trigger] rest[k]).key@) == Some(
                        before[i].kind,
                    );
                assert(specs[k] == rest[k]);
            } else {
                assert(kind_of_key(specs[specs.len() - 1].key@) == Some(now[i].kind));
            }
        }
    }
}

/// A list of columns is taken in its order, each column at its first occurrence
/// and at its default width.
pub proof fn lemma_each_column_once(kinds: Seq<ColumnKind>)
    ensures
        forall|i: int, j: int|
            0 <= i < j < first_of_each(kinds).len() ==> (#[trigger] first_of_each(kinds)[i]).kind
                != (#[trigger] first_of_each(kinds)[j]).kind,
        forall|i: int|
            0 <= i < first_of_each(kinds).len() ==> kinds.contains(
                (#[trigger] first_of_each(kinds)[i]).kind,
            ) && first_of_each(kinds)[i].width == default_width_of(first_of_each(kinds)[i].kind),
        forall|k: int|
            0 <= k < kinds.len() ==> exists|i: int|
                0 <= i < first_of_each(kinds).len() && (#[trigger] first_of_each(kinds)[i]).kind
                    == #[trigger] kinds[k],
        kinds.len() > 0 ==> first_of_each(kinds.drop_last()).is_prefix_of(first_of_each(kinds)),
    decreases kinds.len(),
{
    lemma_first_of_each(kinds);
    if kinds.len() > 0 {
        let rest = kinds.drop_last();
        let before = first_of_each(rest);
        let now = first_of_each(kinds);
        lemma_each_column_once(rest);
        assert(now.take(before.len() as int) =~= before);
        assert forall|i: int| 0 <= i < now.len() implies kinds.contains((#[trigger] now[i]).kind)
            && now[i].width == default_width_of(now[i].kind) by {
            if i < before.len() {
                assert(rest.contains(before[i].kind));
                let k = choose|k: int| 0 <= k < rest.len() && rest[k] == before[i].kind;
                assert(kinds[k] == now[i].kind);
            } else {
                assert(kinds[kinds.len() - 1] == now[i].kind);
            }
        }
        assert forall|k: int| 0 <= k < kinds.len() implies exists|i: int|
            0 <= i < now.len() && (#[trigger] now[i]).kind == #[trigger] kinds[k] by {
            if k < rest.len() {
                assert(rest[k] == kinds[k]);
                let i = choose|i: int| 0 <= i < before.len() && (#[trigger] before[i]).kind == rest[k];
                assert(now[i].kind == kinds[k]);
            } else if has_kind(before, kinds.last()) {
                let i = choose|i: int|
                    0 <= i < before.len() && (#[trigger] before[i]).kind == kinds.last();
                assert(now[i].kind == kinds[k]);
            } else {
                assert(now[now.len() - 1].kind == kinds[k]);
            }
        }
    }
}

/// A drag gives a column the width that is reported, but not below the floor. A
/// change of less than a pixel, a width that is no number and any of Name's
/// change nothing.
pub proof fn lemma_drag(entry: ColumnEntry, width: Option<u32>)
    ensures
        resized(entry, width).kind == entry.kind,
        entry.kind == ColumnKind::Name || width is None ==> resized(entry, width) == entry,
        entry.kind != ColumnKind::Name && width is Some && width->0 >= FIXED_MIN ==> {
            let far = if entry.width < width->0 {
                width->0 - entry.width
            } else {
                entry.width - width->0
            };
            resized(entry, width).width == (if far >= PIXEL {
                width->0
            } else {
                entry.width
            })
        },
        entry.kind != ColumnKind::Name && width is Some && width->0 < FIXED_MIN && entry.width
            >= FIXED_MIN + PIXEL ==> resized(entry, width).width == FIXED_MIN,
        entry.width >= FIXED_MIN ==> resized(entry, width).width >= FIXED_MIN,
{
}

/// Name is never narrower than its floor, and has just that where the others
/// leave no more; what the others take is the sum of their widths.
pub proof fn lemma_name_has_its_floor(columns: Seq<ColumnEntry>, available: u32)
    ensures
        fixed_sum(columns) == columns.fold_left(
            0int,
            |sum: int, entry: ColumnEntry|
                if entry.kind == ColumnKind::Name {
                    sum
                } else {
                    sum + entry.width
                },
        ),
        name_width(columns, available) >= NAME_MIN,
        available < fixed_sum(columns) + NAME_MIN ==> name_width(columns, available) == NAME_MIN,
        available >= fixed_sum(columns) + NAME_MIN ==> name_width(columns, available) + fixed_sum(
            columns,
        ) == available,
    decreases columns.len(),
{
    reveal(Seq::fold_left);
    if columns.len() > 0 {
        lemma_name_has_its_floor(columns.drop_last(), available);
    }
}

/// The type bits of a mode say what an entry is, whatever kind it was listed as;
/// without them its kind does. Both are told by the same characters.
pub proof fn lemma_type_character(mode: u32, kind: EntryKind)
    ensures
        type_char(None, kind) == kind_char(kind),
        ({
            let bits = mode & 0o170000;
            let said = if bits == 0o040000 {
                EntryKind::Directory
            } else if bits == 0o100000 {
                EntryKind::File
            } else if bits == 0o120000 {
                EntryKind::Symlink
            } else if bits == 0o010000 {
                EntryKind::Fifo
            } else if bits == 0o140000 {
                EntryKind::Socket
            } else if bits == 0o060000 {
                EntryKind::BlockDevice
            } else if bits == 0o020000 {
                EntryKind::CharDevice
            } else {
                kind
            };
            type_char(Some(mode), kind) == kind_char(said)
        }),
        kind_char(EntryKind::Directory) == 'd',
        kind_char(EntryKind::File) == '-',
        kind_char(EntryKind::Symlink) == 'l',
        kind_char(EntryKind::Fifo) == 'p',
        kind_char(EntryKind::Socket) == 's',
        kind_char(EntryKind::BlockDevice) == 'b',
        kind_char(EntryKind::CharDevice) == 'c',
        kind_char(EntryKind::Unknown) == '?',
{
}

/// The width that each column has to begin with.
pub proof fn lemma_default_widths(kind: ColumnKind)
    ensures
        default_width_of(kind) == (match kind {
            ColumnKind::Name => 36000u32,
            ColumnKind::Modified => 17000,
            ColumnKind::Extension => 7000,
            _ => 11000,
        }),
        default_width_of(kind) >= FIXED_MIN,
{
}

} // verus!
