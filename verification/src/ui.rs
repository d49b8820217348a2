//! Keys, and what they do to the views.

use vstd::prelude::*;
use crate::app::{last_row, least, Command};
use crate::layout::{visual_for, visual_kind, VisualKind};
use crate::snapshot::{ItemView, ListItem, SnapshotView, ViewSnapshot};
use crate::tally::next_count;
use crate::text::{chars_of, contains_text, has_text, same_list, string_of, Text};
use crate::worker::WorkerOut;

verus! {

// ---------------------------------------------------------------------------------------
// Keys

/// The keys that mean something.
#[derive(Debug, Clone, Copy, PartialEq, Eq, Structural)]
pub enum KeyCode {
    Char(char),
    F(u8),
    Esc,
    Enter,
    Backspace,
    Up,
    Down,
    Left,
    Right,
    PageUp,
    PageDown,
    Other,
}

/// A key that was struck or let go.
#[derive(Debug, Clone, Copy, PartialEq, Eq, Structural)]
pub struct KeyEvent {
    pub code: KeyCode,
    pub control: bool,
    pub shift: bool,
    pub pressed: bool,
}

/// The command of a key.
pub open spec fn command_for(code: KeyCode) -> Command {
    match code {
        KeyCode::Char('q') | KeyCode::Esc => Command::Quit,
        KeyCode::Up | KeyCode::Char('k') => Command::Up,
        KeyCode::Down | KeyCode::Char('j') => Command::Down,
        KeyCode::PageUp => Command::PageUp,
        KeyCode::PageDown => Command::PageDown,
        KeyCode::Char('g') => Command::Top,
        KeyCode::Char('G') => Command::Bottom,
        KeyCode::Right | KeyCode::Enter | KeyCode::Char('l') => Command::Descend,
        KeyCode::Left | KeyCode::Backspace | KeyCode::Char('h') => Command::Back,
        KeyCode::Char('r') | KeyCode::F(5) => Command::Refresh,
        KeyCode::Char('?') | KeyCode::F(1) => Command::ToggleHelp,
        KeyCode::Char('x') => Command::ToggleRaw,
        _ => Command::Nothing,
    }
}

/// The command of a key.
pub fn map_key(key: KeyEvent) -> (r: Command)
    ensures
        r == command_for(key.code),
{
    match key.code {
        KeyCode::Char('q') | KeyCode::Esc => Command::Quit,
        KeyCode::Up | KeyCode::Char('k') => Command::Up,
        KeyCode::Down | KeyCode::Char('j') => Command::Down,
        KeyCode::PageUp => Command::PageUp,
        KeyCode::PageDown => Command::PageDown,
        KeyCode::Char('g') => Command::Top,
        KeyCode::Char('G') => Command::Bottom,
        KeyCode::Right | KeyCode::Enter | KeyCode::Char('l') => Command::Descend,
        KeyCode::Left | KeyCode::Backspace | KeyCode::Char('h') => Command::Back,
        KeyCode::Char('r') | KeyCode::F(5) => Command::Refresh,
        KeyCode::Char('?') | KeyCode::F(1) => Command::ToggleHelp,
        KeyCode::Char('x') => Command::ToggleRaw,
        _ => Command::Nothing,
    }
}

// ---------------------------------------------------------------------------------------
// Filtering

/// What `str::to_lowercase` makes of a text.
pub uninterp spec fn lowercase(t: Text) -> Text;

/// Calls `str::to_lowercase`. The result is a function of the text; what it is for a given
/// text is left to Unicode's tables.
#[verifier::external_body]
fn to_lowercase(t: &str) -> (r: String)
    ensures
        r@ == lowercase(t@),
{
    t.to_lowercase()
}

/// Whether a row whose label and kind are the given texts in lower case is one that the
/// filter lets through.
pub open spec fn is_match(label: Text, kind: Text, filter: Text) -> bool {
    contains_text(label, filter) || contains_text(kind, filter)
}

/// The rows that the filter lets through.
pub open spec fn visible_rows(list: Seq<ItemView>, filter: Text) -> Seq<usize>
    decreases list.len(),
{
    if list.len() == 0 {
        Seq::empty()
    } else {
        let before = visible_rows(list.drop_last(), filter);
        let it = list.last();
        if filter.len() == 0 || is_match(
            lowercase(it.label),
            lowercase(it.kind),
            lowercase(filter),
        ) {
            before.push((list.len() - 1) as usize)
        } else {
            before
        }
    }
}

/// Whether a row is one that the filter lets through, all in lower case.
pub fn row_matches(label: &str, kind: &str, filter: &str) -> (r: bool)
    ensures
        r == is_match(label@, kind@, filter@),
{
    let l = chars_of(label);
    let k = chars_of(kind);
    has_text(l.as_slice(), filter) || has_text(k.as_slice(), filter)
}

/// The rows that the filter lets through; an empty one lets all through.
pub fn visible_indices(list: &Vec<ListItem>, filter: &str) -> (r: Vec<usize>)
    ensures
        r@ == visible_rows(list.deep_view(), filter@),
{
    let ghost d = list.deep_view();
    let f = to_lowercase(filter);
    let all: bool = filter.is_empty();
    let mut out: Vec<usize> = Vec::new();
    let mut i: usize = 0;
    while i < list.len()
        invariant
            i <= list@.len(),
            d == list.deep_view(),
            all == (filter@.len() == 0),
            f@ == lowercase(filter@),
            out@ == visible_rows(d.take(i as int), filter@),
        decreases list@.len() - i,
    {
        let it = &list[i];
        proof {
            assert(d.take(i + 1).drop_last() =~= d.take(i as int));
            assert(d.take(i + 1).last() == d[i as int]);
            assert(d[i as int] == it.deep_view());
        }
        if all || row_matches(
            to_lowercase(it.label.as_str()).as_str(),
            to_lowercase(it.kind.as_str()).as_str(),
            f.as_str(),
        ) {
            out.push(i);
        }
        i += 1;
    }
    assert(d.take(i as int) =~= d);
    out
}

/// The rows come in order, each once, and are rows of the list.
pub proof fn law_visible_rows(list: Seq<ItemView>, filter: Text)
    requires
        list.len() <= usize::MAX,
    ensures
        forall|i: int|
            0 <= i < visible_rows(list, filter).len() ==> (#[trigger] visible_rows(list, filter)[i])
                < list.len(),
        forall|i: int, j: int|
            0 <= i < j < visible_rows(list, filter).len() ==> (#[trigger] visible_rows(
                list,
                filter,
            )[i]) < (#[trigger] visible_rows(list, filter)[j]),
        filter.len() == 0 ==> visible_rows(list, filter) =~= Seq::new(
            list.len(),
            |i: int| i as usize,
        ),
    decreases list.len(),
{
    let rows = visible_rows(list, filter);
    if list.len() > 0 {
        let before = visible_rows(list.drop_last(), filter);
        law_visible_rows(list.drop_last(), filter);
        assert forall|i: int| 0 <= i < before.len() implies #[trigger] rows[i] == before[i] by {}
        assert(rows.len() > before.len() ==> rows[before.len() as int] == list.len() - 1);
    }
}

/// The place of `selected` among the rows; the first where it is not among them.
pub open spec fn place_of(rows: Seq<usize>, selected: usize) -> nat {
    let i = first_place(rows, selected);
    if i < rows.len() {
        i
    } else {
        0
    }
}

/// The first place of `selected` among the rows; as many as there are where there is none.
pub open spec fn first_place(rows: Seq<usize>, selected: usize) -> nat
    decreases rows.len(),
{
    if rows.len() == 0 || rows[0] == selected {
        0
    } else {
        1 + first_place(rows.drop_first(), selected)
    }
}

/// The place after a command, with pages of `page` rows.
pub open spec fn moved(place: nat, n: nat, cmd: Command, page: usize) -> nat {
    match cmd {
        Command::Up => last_row(place),
        Command::Down => least(place + 1, last_row(n)),
        Command::PageUp => if place > page {
            (place - page) as nat
        } else {
            0
        },
        Command::PageDown => least(place + page as nat, last_row(n)),
        Command::Top => 0,
        Command::Bottom => last_row(n),
        _ => place,
    }
}

/// The snapshot after a command has moved the selection among the rows that the filter lets
/// through.
pub open spec fn navigated(s: SnapshotView, cmd: Command, page: usize, filter: Text) -> SnapshotView {
    let rows = visible_rows(s.list, filter);
    if rows.len() == 0 {
        s
    } else {
        SnapshotView {
            selected: rows[moved(place_of(rows, s.selected), rows.len(), cmd, page) as int],
            ..s
        }
    }
}

/// The first place of `selected` among the rows.
pub(crate) fn find_place(rows: &Vec<usize>, selected: usize) -> (r: usize)
    ensures
        r == first_place(rows@, selected),
        r <= rows@.len(),
{
    let ghost d = rows@;
    let mut i: usize = 0;
    assert(d.skip(0) =~= d);
    while i < rows.len() && rows[i] != selected
        invariant
            i <= rows@.len(),
            d == rows@,
            first_place(d, selected) == i + first_place(d.skip(i as int), selected),
        decreases rows@.len() - i,
    {
        assert(d.skip(i as int)[0] == d[i as int]);
        assert(d.skip(i as int).drop_first() =~= d.skip(i + 1));
        i += 1;
    }
    if i < rows.len() {
        assert(d.skip(i as int)[0] == d[i as int]);
    }
    i
}

/// Moves the selection among the rows that the filter lets through.
pub fn apply_nav(s: &mut ViewSnapshot, cmd: Command, page_size: usize, filter: &str)
    ensures
        final(s).deep_view() == navigated(old(s).deep_view(), cmd, page_size, filter@),
{
    let ghost before = s.deep_view();
    let rows = visible_indices(&s.list, filter);
    if rows.len() == 0 {
        return;
    }
    let found: usize = find_place(&rows, s.selected);
    let place: usize = if found < rows.len() {
        found
    } else {
        0
    };
    let last: usize = rows.len() - 1;
    let next: usize = match cmd {
        Command::Up => if place > 0 {
            place - 1
        } else {
            0
        },
        Command::Down => if place < last {
            place + 1
        } else {
            last
        },
        Command::PageUp => if place > page_size {
            place - page_size
        } else {
            0
        },
        Command::PageDown => match place.checked_add(page_size) {
            Some(n) => if n < last {
                n
            } else {
                last
            },
            None => last,
        },
        Command::Top => 0,
        Command::Bottom => last,
        _ => place,
    };
    s.selected = rows[next];
    assert(s.deep_view() =~= navigated(before, cmd, page_size, filter@));
}

/// The selection stays within the list, and moves only to rows that the filter lets through.
pub proof fn law_navigation_stays_in_list(
    s: SnapshotView,
    cmd: Command,
    page: usize,
    filter: Text,
)
    requires
        s.list.len() <= usize::MAX,
        visible_rows(s.list, filter).len() > 0,
    ensures
        navigated(s, cmd, page, filter).selected < s.list.len(),
        visible_rows(s.list, filter).contains(navigated(s, cmd, page, filter).selected),
{
    law_visible_rows(s.list, filter);
    let rows = visible_rows(s.list, filter);
    let i = moved(place_of(rows, s.selected), rows.len(), cmd, page) as int;
    assert(rows[i] < s.list.len());
}

// ---------------------------------------------------------------------------------------
// The views

/// The state of the views.
pub struct Ui {
    pub snapshot: Option<ViewSnapshot>,
    /// How many commands are not answered yet.
    pub pending: usize,
    pub show_help: bool,
    pub show_raw: bool,
    /// Whether a dashboard takes the whole screen.
    pub zoom: bool,
    pub detail_scroll: usize,
    pub filter: String,
    pub filter_editing: bool,
}

/// What a [`Ui`] stands for.
#[verifier::ext_equal]
pub ghost struct UiView {
    pub snapshot: Option<SnapshotView>,
    pub pending: usize,
    pub show_help: bool,
    pub show_raw: bool,
    pub zoom: bool,
    pub detail_scroll: usize,
    pub filter: Text,
    pub filter_editing: bool,
}

impl DeepView for Ui {
    type V = UiView;

    open spec fn deep_view(&self) -> UiView {
        UiView {
            snapshot: self.snapshot.deep_view(),
            pending: self.pending,
            show_help: self.show_help,
            show_raw: self.show_raw,
            zoom: self.zoom,
            detail_scroll: self.detail_scroll,
            filter: self.filter@,
            filter_editing: self.filter_editing,
        }
    }
}

/// What is to be done after a key.
#[derive(Debug, Clone, Copy, PartialEq, Eq, Structural)]
pub enum UiAction {
    /// Nothing further.
    Stay,
    /// The program ends.
    Quit,
    /// A command is sent, with how many rows a page has.
    Send(Command, usize),
}

impl UiView {
    /// Another snapshot is shown. The details are scrolled back, unless the same row of the
    /// same node is selected.
    pub open spec fn showing(self, s: SnapshotView) -> UiView {
        let same = match self.snapshot {
            Some(o) => o.crumb == s.crumb && o.selected == s.selected,
            None => false,
        };
        UiView {
            snapshot: Some(s),
            detail_scroll: if same {
                self.detail_scroll
            } else {
                0
            },
            ..self
        }
    }

    /// The answer to a command has come.
    pub open spec fn answered(self, s: SnapshotView) -> UiView {
        UiView {
            pending: if self.pending > 0 {
                (self.pending - 1) as usize
            } else {
                0
            },
            ..self.showing(s)
        }
    }

    /// Something has changed by itself. That is not shown while a command is not answered.
    pub open spec fn updated(self, s: SnapshotView) -> UiView {
        if self.pending == 0 {
            self.showing(s)
        } else {
            self
        }
    }

    /// A key while the filter is written.
    pub open spec fn edited(self, key: KeyEvent) -> UiView {
        match key.code {
            KeyCode::Esc => UiView { filter_editing: false, filter: Seq::empty(), ..self },
            KeyCode::Enter => UiView { filter_editing: false, ..self },
            KeyCode::Backspace => UiView {
                filter: if self.filter.len() > 0 {
                    self.filter.drop_last()
                } else {
                    self.filter
                },
                ..self
            },
            KeyCode::Char(c) => if key.control {
                if c == 'u' {
                    UiView { filter: Seq::empty(), ..self }
                } else {
                    self
                }
            } else {
                UiView { filter: self.filter.push(c), ..self }
            },
            _ => self,
        }
    }

    /// The details are scrolled by a page of `page` rows.
    pub open spec fn scrolled(self, down: bool, page: usize) -> UiView {
        let rows = if page > 0 {
            page as int
        } else {
            1
        };
        let all = match self.snapshot {
            Some(s) => s.details.len() as int,
            None => 0,
        };
        let max = if all > rows {
            all - rows
        } else {
            0
        };
        let to = if down {
            if self.detail_scroll + rows < max {
                self.detail_scroll + rows
            } else {
                max
            }
        } else {
            if self.detail_scroll > rows {
                self.detail_scroll - rows
            } else {
                0
            }
        };
        UiView { detail_scroll: to as usize, ..self }
    }

    /// A command is sent.
    pub open spec fn sending(self, cmd: Command, page: usize) -> (UiView, UiAction) {
        (UiView { pending: next_count(self.pending), ..self }, UiAction::Send(cmd, page))
    }

    /// The selection is moved. With a filter the worker is told the row.
    pub open spec fn moving(self, cmd: Command, page: usize) -> (UiView, UiAction) {
        let rows = if page > 0 {
            page
        } else {
            1
        };
        let snapshot = match self.snapshot {
            Some(s) => Some(navigated(s, cmd, rows, self.filter)),
            None => None,
        };
        let send = if self.filter.len() == 0 {
            cmd
        } else {
            Command::Select(
                match snapshot {
                    Some(s) => s.selected,
                    None => 0,
                },
            )
        };
        UiView { snapshot, ..self }.sending(send, page)
    }

    /// The dashboard that stands for the details.
    pub open spec fn dashboard(self) -> VisualKind {
        match self.snapshot {
            Some(s) => visual_kind(s),
            None => VisualKind::Plain,
        }
    }

    /// Whether a dashboard takes the whole screen now: where none stands for the details, the
    /// list is shown.
    pub open spec fn is_zoomed(self) -> bool {
        self.zoom && self.dashboard() != VisualKind::Plain
    }

    /// A dashboard takes the whole screen, if one stands for the details, or no longer does.
    pub open spec fn zoom_toggled(self) -> UiView {
        UiView { zoom: !self.zoom && self.dashboard() != VisualKind::Plain, ..self }
    }

    /// The way back: from a dashboard on the whole screen to the list, else to the node above.
    pub open spec fn going_back(self, page: usize) -> (UiView, UiAction) {
        let u = UiView { zoom: false, ..self };
        if self.is_zoomed() {
            (u, UiAction::Stay)
        } else {
            UiView { filter: Seq::empty(), filter_editing: false, ..u }.sending(
                Command::Back,
                page,
            )
        }
    }

    /// The selected node is entered; the report takes the whole screen.
    pub open spec fn going_in(self, page: usize) -> (UiView, UiAction) {
        if self.dashboard() == VisualKind::Global {
            (UiView { zoom: true, ..self }, UiAction::Stay)
        } else {
            UiView { filter: Seq::empty(), filter_editing: false, ..self }.sending(
                Command::Descend,
                page,
            )
        }
    }

    /// A command of the user.
    pub open spec fn commanded(self, cmd: Command, page: usize) -> (UiView, UiAction) {
        match cmd {
            Command::Quit => (self, UiAction::Quit),
            Command::ToggleHelp => (
                UiView { show_help: !self.show_help, ..self },
                UiAction::Stay,
            ),
            Command::Nothing => (self, UiAction::Stay),
            _ => if self.show_help {
                (UiView { show_help: false, ..self }, UiAction::Stay)
            } else {
                match cmd {
                    Command::Up | Command::Down | Command::PageUp | Command::PageDown | Command::Top
                    | Command::Bottom => self.moving(cmd, page),
                    Command::Descend => self.going_in(page),
                    Command::Back => self.going_back(page),
                    Command::Refresh => UiView {
                        filter: Seq::empty(),
                        filter_editing: false,
                        ..self
                    }.sending(cmd, page),
                    _ => self.sending(cmd, page),
                }
            },
        }
    }

    /// A key, where a page has `page` rows.
    pub open spec fn pressed(self, key: KeyEvent, page: usize) -> (UiView, UiAction) {
        if key.control && key.code == KeyCode::Char('c') {
            (self, UiAction::Quit)
        } else if !key.pressed {
            (self, UiAction::Stay)
        } else if self.filter_editing {
            (self.edited(key), UiAction::Stay)
        } else if key.code == KeyCode::Char('/') && !self.show_help {
            (UiView { filter_editing: true, ..self }, UiAction::Stay)
        } else if key.code == KeyCode::Char('x') && !self.show_help {
            (UiView { show_raw: !self.show_raw, ..self }, UiAction::Stay)
        } else if key.code == KeyCode::Char('z') && !self.show_help {
            (self.zoom_toggled(), UiAction::Stay)
        } else if key.shift && (key.code == KeyCode::PageUp || key.code == KeyCode::PageDown) {
            (self.scrolled(key.code == KeyCode::PageDown, page), UiAction::Stay)
        } else {
            self.commanded(command_for(key.code), page)
        }
    }
}

impl Ui {
    /// The views before anything is shown.
    pub fn new() -> (r: Ui)
        ensures
            r.deep_view() == (UiView {
                snapshot: None,
                pending: 0,
                show_help: false,
                show_raw: false,
                zoom: false,
                detail_scroll: 0,
                filter: Seq::empty(),
                filter_editing: false,
            }),
    {
        let filter = String::new();
        assert(filter@ =~= Seq::<char>::empty());
        Ui {
            snapshot: None,
            pending: 0,
            show_help: false,
            show_raw: false,
            zoom: false,
            detail_scroll: 0,
            filter,
            filter_editing: false,
        }
    }

    fn show(&mut self, s: ViewSnapshot)
        ensures
            final(self).deep_view() == old(self).deep_view().showing(s.deep_view()),
    {
        let ghost before = self.deep_view();
        let same: bool = match &self.snapshot {
            Some(o) => same_list(&o.crumb, &s.crumb) && o.selected == s.selected,
            None => false,
        };
        if !same {
            self.detail_scroll = 0;
        }
        self.snapshot = Some(s);
        assert(self.deep_view() =~= before.showing(s.deep_view()));
    }

    /// Takes in what the worker sends.
    pub fn on_message(&mut self, msg: WorkerOut)
        ensures
            final(self).deep_view() == (match msg {
                WorkerOut::Nav(s) => old(self).deep_view().answered(s.deep_view()),
                WorkerOut::Background(s) => old(self).deep_view().updated(s.deep_view()),
            }),
    {
        let ghost before = self.deep_view();
        match msg {
            WorkerOut::Nav(s) => {
                self.show(s);
                if self.pending > 0 {
                    self.pending = self.pending - 1;
                }
                assert(self.deep_view() =~= before.answered(s.deep_view()));
            },
            WorkerOut::Background(s) => {
                if self.pending == 0 {
                    self.show(s);
                }
            },
        }
    }

    fn clear_filter(&mut self)
        ensures
            final(self).deep_view() == (UiView {
                filter: Seq::empty(),
                ..old(self).deep_view()
            }),
    {
        let ghost before = self.deep_view();
        self.filter = String::new();
        assert(self.deep_view() =~= UiView { filter: Seq::empty(), ..before });
    }

    fn end_filter(&mut self)
        ensures
            final(self).deep_view() == (UiView {
                filter: Seq::empty(),
                filter_editing: false,
                ..old(self).deep_view()
            }),
    {
        let ghost before = self.deep_view();
        self.clear_filter();
        self.filter_editing = false;
        assert(self.deep_view() =~= UiView {
            filter: Seq::empty(),
            filter_editing: false,
            ..before
        });
    }

    /// The dashboard that stands for the details.
    fn shows_dashboard(&self) -> (r: VisualKind)
        ensures
            r == self.deep_view().dashboard(),
    {
        match &self.snapshot {
            Some(s) => visual_for(s),
            None => VisualKind::Plain,
        }
    }

    /// Whether a dashboard takes the whole screen now.
    pub fn is_zoomed(&self) -> (r: bool)
        ensures
            r == self.deep_view().is_zoomed(),
    {
        self.zoom && self.shows_dashboard() != VisualKind::Plain
    }

    fn go_back(&mut self, page: usize) -> (r: UiAction)
        ensures
            (final(self).deep_view(), r) == old(self).deep_view().going_back(page),
    {
        let ghost before = self.deep_view();
        let zoomed: bool = self.is_zoomed();
        self.zoom = false;
        assert(self.deep_view() =~= UiView { zoom: false, ..before });
        if zoomed {
            return UiAction::Stay;
        }
        self.end_filter();
        self.send(Command::Back, page)
    }

    fn go_in(&mut self, page: usize) -> (r: UiAction)
        ensures
            (final(self).deep_view(), r) == old(self).deep_view().going_in(page),
    {
        let ghost before = self.deep_view();
        if self.shows_dashboard() == VisualKind::Global {
            self.zoom = true;
            assert(self.deep_view() =~= UiView { zoom: true, ..before });
            return UiAction::Stay;
        }
        self.end_filter();
        self.send(Command::Descend, page)
    }

    fn edit(&mut self, key: KeyEvent)
        ensures
            final(self).deep_view() == old(self).deep_view().edited(key),
    {
        let ghost before = self.deep_view();
        match key.code {
            KeyCode::Esc => {
                self.filter_editing = false;
                self.clear_filter();
            },
            KeyCode::Enter => {
                self.filter_editing = false;
            },
            KeyCode::Backspace => {
                let mut c = chars_of(self.filter.as_str());
                c.pop();
                self.filter = string_of(c.as_slice());
                assert(self.filter@ =~= before.edited(key).filter);
            },
            KeyCode::Char(c) => {
                if key.control {
                    if c == 'u' {
                        self.clear_filter();
                    }
                } else {
                    self.filter.push(c);
                }
            },
            _ => {},
        }
        assert(self.deep_view() =~= before.edited(key));
    }

    fn scroll(&mut self, down: bool, page: usize)
        ensures
            final(self).deep_view() == old(self).deep_view().scrolled(down, page),
    {
        let ghost before = self.deep_view();
        let rows: usize = if page > 0 {
            page
        } else {
            1
        };
        let all: usize = match &self.snapshot {
            Some(s) => s.details.len(),
            None => 0,
        };
        let max: usize = if all > rows {
            all - rows
        } else {
            0
        };
        if down {
            self.detail_scroll = match self.detail_scroll.checked_add(rows) {
                Some(n) => if n < max {
                    n
                } else {
                    max
                },
                None => max,
            };
        } else {
            self.detail_scroll = if self.detail_scroll > rows {
                self.detail_scroll - rows
            } else {
                0
            };
        }
        assert(self.deep_view() =~= before.scrolled(down, page));
    }

    fn send(&mut self, cmd: Command, page: usize) -> (r: UiAction)
        ensures
            (final(self).deep_view(), r) == old(self).deep_view().sending(cmd, page),
    {
        let ghost before = self.deep_view();
        if self.pending < usize::MAX {
            self.pending = self.pending + 1;
        }
        assert(self.deep_view() =~= before.sending(cmd, page).0);
        UiAction::Send(cmd, page)
    }

    fn move_selection(&mut self, cmd: Command, page: usize) -> (r: UiAction)
        ensures
            (final(self).deep_view(), r) == old(self).deep_view().moving(cmd, page),
    {
        let ghost before = self.deep_view();
        let rows: usize = if page > 0 {
            page
        } else {
            1
        };
        let mut shown: Option<ViewSnapshot> = None;
        std::mem::swap(&mut shown, &mut self.snapshot);
        let mut selected: usize = 0;
        match shown {
            Some(s) => {
                let mut s = s;
                apply_nav(&mut s, cmd, rows, self.filter.as_str());
                selected = s.selected;
                self.snapshot = Some(s);
            },
            None => {
                self.snapshot = None;
            },
        }
        let send = if self.filter.as_str().is_empty() {
            cmd
        } else {
            Command::Select(selected)
        };
        let ghost snapshot = match before.snapshot {
            Some(s) => Some(navigated(s, cmd, rows, before.filter)),
            None => None,
        };
        assert(self.deep_view() =~= UiView { snapshot, ..before });
        self.send(send, page)
    }

    /// Takes in a key, where a page has `page` rows.
    pub fn on_key(&mut self, key: KeyEvent, page: usize) -> (r: UiAction)
        ensures
            (final(self).deep_view(), r) == old(self).deep_view().pressed(key, page),
    {
        let ghost before = self.deep_view();
        if key.control && key.code == KeyCode::Char('c') {
            return UiAction::Quit;
        }
        if !key.pressed {
            return UiAction::Stay;
        }
        if self.filter_editing {
            self.edit(key);
            return UiAction::Stay;
        }
        if key.code == KeyCode::Char('/') && !self.show_help {
            self.filter_editing = true;
            assert(self.deep_view() =~= before.pressed(key, page).0);
            return UiAction::Stay;
        }
        if key.code == KeyCode::Char('x') && !self.show_help {
            self.show_raw = !self.show_raw;
            assert(self.deep_view() =~= before.pressed(key, page).0);
            return UiAction::Stay;
        }
        if key.code == KeyCode::Char('z') && !self.show_help {
            let shown: bool = self.shows_dashboard() != VisualKind::Plain;
            self.zoom = !self.zoom && shown;
            assert(self.deep_view() =~= before.pressed(key, page).0);
            return UiAction::Stay;
        }
        if key.shift && (key.code == KeyCode::PageUp || key.code == KeyCode::PageDown) {
            self.scroll(key.code == KeyCode::PageDown, page);
            return UiAction::Stay;
        }
        let cmd = map_key(key);
        match cmd {
            Command::Quit => UiAction::Quit,
            Command::ToggleHelp => {
                self.show_help = !self.show_help;
                assert(self.deep_view() =~= before.pressed(key, page).0);
                UiAction::Stay
            },
            Command::Nothing => UiAction::Stay,
            _ => {
                if self.show_help {
                    self.show_help = false;
                    assert(self.deep_view() =~= before.pressed(key, page).0);
                    UiAction::Stay
                } else {
                    match cmd {
                        Command::Up
                        | Command::Down
                        | Command::PageUp
                        | Command::PageDown
                        | Command::Top
                        | Command::Bottom => self.move_selection(cmd, page),
                        Command::Descend => self.go_in(page),
                        Command::Back => self.go_back(page),
                        Command::Refresh => {
                            self.end_filter();
                            self.send(cmd, page)
                        },
                        _ => self.send(cmd, page),
                    }
                }
            },
        }
    }
}

/// While a command is not answered, what changes by itself is not shown.
pub proof fn law_answers_come_first(u: UiView, s: SnapshotView)
    ensures
        u.pending > 0 ==> u.updated(s) == u,
        u.pending == 0 ==> u.updated(s).snapshot == Some(s),
        u.answered(s).snapshot == Some(s),
{
}

/// Each command that is sent is answered once: what was sent and answered leaves as many
/// commands open as before.
pub proof fn law_sent_and_answered(u: UiView, cmd: Command, page: usize, s: SnapshotView)
    requires
        u.pending < usize::MAX,
    ensures
        u.sending(cmd, page).0.answered(s).pending == u.pending,
{
}

/// A dashboard that is shown can be given the whole screen and, with either key, be taken back
/// to the list, which leaves the views as they were.
pub proof fn law_zoom_and_back(u: UiView, z: KeyEvent, h: KeyEvent, page: usize)
    requires
        z.pressed && z.code == KeyCode::Char('z') && !z.control,
        h.pressed && h.code == KeyCode::Char('h') && !h.control,
        !u.filter_editing && !u.show_help && !u.zoom,
        u.dashboard() != VisualKind::Plain,
    ensures
        u.pressed(z, page).0.is_zoomed(),
        u.pressed(z, page).0.pressed(z, page) == (u, UiAction::Stay),
        u.pressed(z, page).0.pressed(h, page) == (u, UiAction::Stay),
{
}

/// A row is shown if there is no filter, or if its label or its kind holds the filter, whatever
/// the case.
pub proof fn law_filter_shows_what_matches(list: Seq<ItemView>, filter: Text, i: int)
    requires
        list.len() <= usize::MAX,
        0 <= i < list.len(),
    ensures
        visible_rows(list, filter).contains(i as usize) <==> filter.len() == 0 || contains_text(
            lowercase(list[i].label),
            lowercase(filter),
        ) || contains_text(lowercase(list[i].kind), lowercase(filter)),
    decreases list.len(),
{
    let rest = list.drop_last();
    let n = list.len() - 1;
    let before = visible_rows(rest, filter);
    let rows = visible_rows(list, filter);
    law_visible_rows(rest, filter);
    if i < n {
        law_filter_shows_what_matches(rest, filter, i);
        assert(rest[i] == list[i]);
        if before.contains(i as usize) {
            let k = choose|k: int| 0 <= k < before.len() && before[k] == i as usize;
            assert(rows[k] == i as usize);
        }
        if rows.contains(i as usize) {
            let k = choose|k: int| 0 <= k < rows.len() && rows[k] == i as usize;
            assert(k < before.len());
            assert(before[k] == i as usize);
        }
    } else {
        if rows.contains(i as usize) {
            let k = choose|k: int| 0 <= k < rows.len() && rows[k] == i as usize;
            if k < before.len() {
                assert(before[k] < rest.len());
            }
        }
        if rows.len() > before.len() {
            assert(rows[before.len() as int] == n as usize);
        }
    }
}

/// Which row is selected next, if the selected one is shown: the one above or below among those
/// that are shown, a page further, the first or the last; never one beyond them.
pub proof fn law_navigation_moves_among_shown(
    s: SnapshotView,
    page: usize,
    filter: Text,
    p: int,
)
    requires
        s.list.len() <= usize::MAX,
        0 <= p < visible_rows(s.list, filter).len(),
        visible_rows(s.list, filter)[p] == s.selected,
    ensures
        ({
            let rows = visible_rows(s.list, filter);
            let end = rows.len() - 1;
            &&& navigated(s, Command::Up, page, filter).selected == rows[if p > 0 {
                p - 1
            } else {
                0
            }]
            &&& navigated(s, Command::Down, page, filter).selected == rows[if p < end {
                p + 1
            } else {
                end
            }]
            &&& navigated(s, Command::PageUp, page, filter).selected == rows[if p > page {
                p - page
            } else {
                0
            }]
            &&& navigated(s, Command::PageDown, page, filter).selected == rows[if p + page < end {
                p + page
            } else {
                end
            }]
            &&& navigated(s, Command::Top, page, filter).selected == rows[0]
            &&& navigated(s, Command::Bottom, page, filter).selected == rows[end]
            &&& navigated(s, Command::Down, page, filter).list == s.list
            &&& navigated(s, Command::Down, page, filter).crumb == s.crumb
        }),
{
    let rows = visible_rows(s.list, filter);
    law_visible_rows(s.list, filter);
    lemma_first_place(rows, s.selected, p);
}

proof fn lemma_first_place(rows: Seq<usize>, selected: usize, p: int)
    requires
        0 <= p < rows.len(),
        rows[p] == selected,
        forall|i: int, j: int|
            0 <= i < j < rows.len() ==> (#[trigger] rows[i]) < (#[trigger] rows[j]),
    ensures
        first_place(rows, selected) == p,
    decreases rows.len(),
{
    if p > 0 {
        assert(rows[0] < rows[p]);
        let rest = rows.drop_first();
        assert forall|i: int, j: int| 0 <= i < j < rest.len() implies (#[trigger] rest[i]) < (
        #[trigger] rest[j]) by {
            assert(rows[i + 1] < rows[j + 1]);
        }
        lemma_first_place(rest, selected, p - 1);
    }
}

/// What is typed while a filter is written is added to it; it can be taken back, cleared, kept
/// or given up. Nothing is sent meanwhile.
pub proof fn law_filter_is_typed(u: UiView, key: KeyEvent, back: KeyEvent, page: usize, c: char)
    requires
        u.filter_editing,
        key.pressed,
        !key.control,
        back.pressed,
        !back.control,
        back.code == KeyCode::Backspace,
    ensures
        key.code == KeyCode::Char(c) ==> {
            let v = u.pressed(key, page).0;
            &&& u.pressed(key, page).1 == UiAction::Stay
            &&& v.filter == u.filter.push(c)
            &&& v.filter_editing
            &&& v.snapshot == u.snapshot && v.pending == u.pending && v.zoom == u.zoom
            &&& v.pressed(back, page) == (u, UiAction::Stay)
        },
        key.code == KeyCode::Esc ==> u.pressed(key, page).1 == UiAction::Stay && u.pressed(
            key,
            page,
        ).0.filter.len() == 0 && !u.pressed(key, page).0.filter_editing,
        key.code == KeyCode::Enter ==> u.pressed(key, page).1 == UiAction::Stay && u.pressed(
            key,
            page,
        ).0.filter == u.filter && !u.pressed(key, page).0.filter_editing,
{
    if key.code == KeyCode::Char(c) {
        assert(u.filter.push(c).drop_last() =~= u.filter);
    }
}

/// While the help is shown, a key that would move closes it, and nothing else happens.
pub proof fn law_help_is_closed_first(u: UiView, key: KeyEvent, page: usize)
    requires
        u.show_help,
        !u.filter_editing,
        key.pressed,
        !key.control,
        !key.shift,
        key.code == KeyCode::Up || key.code == KeyCode::Down || key.code == KeyCode::Enter
            || key.code == KeyCode::Left || key.code == KeyCode::PageUp || key.code
            == KeyCode::PageDown,
    ensures
        u.pressed(key, page) == (UiView { show_help: false, ..u }, UiAction::Stay),
{
}

/// A key that moves is sent to the browser and shown at once; with a filter the row is sent
/// that is then selected.
pub proof fn law_moves_are_sent(u: UiView, key: KeyEvent, page: usize)
    requires
        !u.show_help,
        !u.filter_editing,
        key.pressed,
        !key.control,
        !key.shift,
        key.code == KeyCode::Up || key.code == KeyCode::Down || key.code == KeyCode::PageUp
            || key.code == KeyCode::PageDown,
        page > 0,
        u.pending < usize::MAX,
    ensures
        ({
            let cmd = match key.code {
                KeyCode::Up => Command::Up,
                KeyCode::Down => Command::Down,
                KeyCode::PageUp => Command::PageUp,
                _ => Command::PageDown,
            };
            let (v, action) = u.pressed(key, page);
            &&& v.pending == u.pending + 1
            &&& u.snapshot matches Some(s) ==> v.snapshot == Some(
                navigated(s, cmd, page, u.filter),
            )
            &&& u.filter.len() == 0 ==> action == UiAction::Send(cmd, page)
            &&& u.filter.len() > 0 ==> (v.snapshot matches Some(s) ==> action == UiAction::Send(
                Command::Select(s.selected),
                page,
            ))
            &&& v.filter == u.filter && v.zoom == u.zoom && v.show_help == u.show_help
        }),
{
}

/// To go in, to go back and to refresh are sent, and the filter is dropped; where a dashboard
/// fills the screen, to go back leaves it first.
pub proof fn law_levels_are_sent(u: UiView, key: KeyEvent, page: usize)
    requires
        !u.show_help,
        !u.filter_editing,
        key.pressed,
        !key.control,
        u.pending < usize::MAX,
        u.dashboard() != VisualKind::Global,
    ensures
        ({
            let (v, action) = u.pressed(key, page);
            &&& key.code == KeyCode::Enter || key.code == KeyCode::Right ==> action
                == UiAction::Send(Command::Descend, page) && v.filter.len() == 0 && v.pending
                == u.pending + 1
            &&& (key.code == KeyCode::Left || key.code == KeyCode::Backspace) && !u.is_zoomed()
                ==> action == UiAction::Send(Command::Back, page) && v.filter.len() == 0
                && v.pending == u.pending + 1
            &&& (key.code == KeyCode::Left || key.code == KeyCode::Backspace) && u.is_zoomed()
                ==> action == UiAction::Stay && !v.zoom && v.pending == u.pending && v.filter
                == u.filter
            &&& key.code == KeyCode::F(5) ==> action == UiAction::Send(Command::Refresh, page)
                && v.filter.len() == 0
            &&& key.code == KeyCode::Char('q') || key.code == KeyCode::Esc ==> action
                == UiAction::Quit
        }),
{
}

/// A new picture starts at the top of the details, unless it shows the same row of the same
/// place.
pub proof fn law_details_start_at_the_top(u: UiView, s: SnapshotView)
    ensures
        (u.snapshot matches Some(o) && o.crumb == s.crumb && o.selected == s.selected)
            ==> u.showing(s).detail_scroll == u.detail_scroll,
        !(u.snapshot matches Some(o) && o.crumb == s.crumb && o.selected == s.selected)
            ==> u.showing(s).detail_scroll == 0,
        u.showing(s).snapshot == Some(s),
        u.showing(s).filter == u.filter,
        u.showing(s).pending == u.pending,
{
}

/// The details scroll by a page, no further than to their last page and not above their start.
pub proof fn law_details_scroll(u: UiView, s: SnapshotView, page: usize)
    requires
        u.snapshot == Some(s),
        page > 0,
        s.details.len() <= usize::MAX,
    ensures
        ({
            let end = if s.details.len() > page {
                s.details.len() - page
            } else {
                0
            };
            &&& u.scrolled(true, page).detail_scroll == (if u.detail_scroll + page < end {
                u.detail_scroll + page
            } else {
                end
            })
            &&& u.scrolled(false, page).detail_scroll == (if u.detail_scroll > page {
                u.detail_scroll - page
            } else {
                0
            })
        }),
{
}

/// Each command has its keys, and no other key gives it.
pub proof fn law_keys_have_commands(code: KeyCode)
    ensures
        command_for(code) == Command::Up <==> code == KeyCode::Up || code == KeyCode::Char('k'),
        command_for(code) == Command::Down <==> code == KeyCode::Down || code == KeyCode::Char('j'),
        command_for(code) == Command::Descend <==> code == KeyCode::Right || code == KeyCode::Enter
            || code == KeyCode::Char('l'),
        command_for(code) == Command::Back <==> code == KeyCode::Left || code == KeyCode::Backspace
            || code == KeyCode::Char('h'),
        command_for(code) == Command::PageUp <==> code == KeyCode::PageUp,
        command_for(code) == Command::PageDown <==> code == KeyCode::PageDown,
        command_for(code) == Command::Top <==> code == KeyCode::Char('g'),
        command_for(code) == Command::Bottom <==> code == KeyCode::Char('G'),
        command_for(code) == Command::Refresh <==> code == KeyCode::F(5) || code == KeyCode::Char(
            'r',
        ),
        command_for(code) == Command::ToggleHelp <==> code == KeyCode::F(1) || code
            == KeyCode::Char('?'),
        command_for(code) == Command::ToggleRaw <==> code == KeyCode::Char('x'),
        command_for(code) == Command::Quit <==> code == KeyCode::Esc || code == KeyCode::Char('q'),
{
}

/// What the other keys do: one starts a filter, others show the record or the whole dashboard,
/// pages of the details are turned, and the help comes and goes. While the help is shown it is
/// in the way. A key that is let go does nothing, and the way out is always open.
pub proof fn law_other_keys(u: UiView, key: KeyEvent, page: usize)
    requires
        !u.filter_editing,
    ensures
        key.control && key.code == KeyCode::Char('c') ==> u.pressed(key, page) == (
            u,
            UiAction::Quit,
        ),
        !key.pressed && !key.control ==> u.pressed(key, page) == (u, UiAction::Stay),
        key.pressed && !u.show_help && key.code == KeyCode::Char('/') ==> u.pressed(key, page) == (
            UiView { filter_editing: true, ..u },
            UiAction::Stay,
        ),
        key.pressed && !u.show_help && key.code == KeyCode::Char('x') ==> u.pressed(key, page) == (
            UiView { show_raw: !u.show_raw, ..u },
            UiAction::Stay,
        ),
        key.pressed && !u.show_help && key.code == KeyCode::Char('z') ==> u.pressed(key, page) == (
            UiView { zoom: !u.zoom && u.dashboard() != VisualKind::Plain, ..u },
            UiAction::Stay,
        ),
        key.pressed && u.show_help && (key.code == KeyCode::Char('/') || key.code == KeyCode::Char(
            'z',
        )) ==> u.pressed(key, page) == (u, UiAction::Stay),
        key.pressed && u.show_help && key.code == KeyCode::Char('x') ==> u.pressed(key, page) == (
            UiView { show_help: false, ..u },
            UiAction::Stay,
        ),
        key.pressed && key.code == KeyCode::Char('?') ==> u.pressed(key, page) == (
            UiView { show_help: !u.show_help, ..u },
            UiAction::Stay,
        ),
        key.pressed && key.shift && key.code == KeyCode::PageDown ==> u.pressed(key, page) == (
            u.scrolled(true, page),
            UiAction::Stay,
        ),
        key.pressed && key.shift && key.code == KeyCode::PageUp ==> u.pressed(key, page) == (
            u.scrolled(false, page),
            UiAction::Stay,
        ),
{
}

} // verus!
