//! What stands on the screen: rows of text in colors.

use vstd::prelude::*;
use vstd::slice::slice_subrange;
use crate::snapshot::{ItemView, ListItem, SnapshotView, ViewSnapshot};
use crate::text::{chars_of, count_text, decimal, decimal_of, join, join_of, labelled, law_repeated, repeat_of, repeated, same_text, string_of, Text};
use crate::trust::TrustLevel;
use crate::ui::{find_place, first_place, law_visible_rows, visible_indices, visible_rows};
use crate::util::{bytes_text, human_bytes, trust_color, Color};
use crate::visual::{copy_health, DetailView, ReportView, VisualRemote, VisualRemoteKind, VisualRemoteView, VisualRepo, VisualRepoDetail, VisualRepoView, VisualReport};
use crate::worker::capped;

verus! {

/// The rows of the screen that the list does not have: its borders.
pub const LIST_CHROME_ROWS: u16 = 2;

/// How many rows a page has on a screen of `height` rows, if that is known.
pub fn page_rows(height: Option<u16>) -> (r: usize)
    ensures
        r == (match height {
            Some(h) => if h > LIST_CHROME_ROWS + 2 {
                h - (LIST_CHROME_ROWS + 2)
            } else {
                0
            },
            None => 20,
        }),
{
    match height {
        Some(h) => if h > LIST_CHROME_ROWS + 2 {
            (h - (LIST_CHROME_ROWS + 2)) as usize
        } else {
            0
        },
        None => 20,
    }
}

// ---------------------------------------------------------------------------------------
// Segments

/// A piece of a row.
#[derive(Debug)]
pub struct Segment {
    pub text: String,
    pub color: Color,
    pub bold: bool,
}

/// What a [`Segment`] stands for.
#[verifier::ext_equal]
pub ghost struct SegmentView {
    pub text: Text,
    pub color: Color,
    pub bold: bool,
}

impl DeepView for Segment {
    type V = SegmentView;

    open spec fn deep_view(&self) -> SegmentView {
        SegmentView { text: self.text@, color: self.color, bold: self.bold }
    }
}

/// A piece in the color of the terminal.
pub open spec fn plain(text: Text) -> SegmentView {
    SegmentView { text, color: Color::Reset, bold: false }
}

/// A piece in a color.
pub open spec fn colored(text: Text, color: Color) -> SegmentView {
    SegmentView { text, color, bold: false }
}

/// A piece in a color, bold.
pub open spec fn strong(text: Text, color: Color) -> SegmentView {
    SegmentView { text, color, bold: true }
}

fn push_plain(row: &mut Vec<Segment>, text: String)
    ensures
        final(row).deep_view() == old(row).deep_view().push(plain(text@)),
{
    let ghost before = row.deep_view();
    row.push(Segment { text, color: Color::Reset, bold: false });
    assert(row.deep_view() =~= before.push(plain(text@)));
}

fn push_colored(row: &mut Vec<Segment>, text: String, color: Color)
    ensures
        final(row).deep_view() == old(row).deep_view().push(colored(text@, color)),
{
    let ghost before = row.deep_view();
    row.push(Segment { text, color, bold: false });
    assert(row.deep_view() =~= before.push(colored(text@, color)));
}

fn push_strong(row: &mut Vec<Segment>, text: String, color: Color)
    ensures
        final(row).deep_view() == old(row).deep_view().push(strong(text@, color)),
{
    let ghost before = row.deep_view();
    row.push(Segment { text, color, bold: true });
    assert(row.deep_view() =~= before.push(strong(text@, color)));
}

fn no_segments() -> (r: Vec<Segment>)
    ensures
        r.deep_view() == Seq::<SegmentView>::empty(),
{
    let r: Vec<Segment> = Vec::new();
    assert(r.deep_view() =~= Seq::<SegmentView>::empty());
    r
}

fn push_line(lines: &mut Vec<Vec<Segment>>, row: Vec<Segment>)
    ensures
        final(lines).deep_view() == old(lines).deep_view().push(row.deep_view()),
{
    let ghost before = lines.deep_view();
    lines.push(row);
    assert(lines.deep_view() =~= before.push(row.deep_view()));
}

fn no_lines() -> (r: Vec<Vec<Segment>>)
    ensures
        r.deep_view() == Seq::<Seq<SegmentView>>::empty(),
{
    let r: Vec<Vec<Segment>> = Vec::new();
    assert(r.deep_view() =~= Seq::<Seq<SegmentView>>::empty());
    r
}

// ---------------------------------------------------------------------------------------
// Widths

/// The text with spaces behind it up to `width` characters.
pub open spec fn padded(text: Text, width: nat) -> Text {
    if text.len() < width {
        text + repeated(" "@, (width - text.len()) as nat)
    } else {
        text
    }
}

/// The text with spaces before it up to `width` characters.
pub open spec fn right_aligned(text: Text, width: nat) -> Text {
    if text.len() < width {
        repeated(" "@, (width - text.len()) as nat) + text
    } else {
        text
    }
}

/// The name in a column of `width` characters; one that is too long ends in an ellipsis.
pub open spec fn in_column(name: Text, width: nat) -> Text {
    if name.len() <= width {
        padded(name, width)
    } else if width == 0 {
        padded(seq!['…'], width)
    } else {
        padded(name.take(width - 1).push('…'), width)
    }
}

fn pad(text: String, width: usize) -> (r: String)
    ensures
        r@ == padded(text@, width as nat),
{
    let n: usize = chars_of(text.as_str()).len();
    if n < width {
        text.concat(repeat_of(" ", width - n).as_str())
    } else {
        text
    }
}

fn align_right(text: String, width: usize) -> (r: String)
    ensures
        r@ == right_aligned(text@, width as nat),
{
    let n: usize = chars_of(text.as_str()).len();
    if n < width {
        repeat_of(" ", width - n).concat(text.as_str())
    } else {
        text
    }
}

/// The name in a column of `width` characters; one that is too long ends in an ellipsis.
pub fn trunc_name(name: &str, width: usize) -> (r: String)
    ensures
        r@ == in_column(name@, width as nat),
{
    let c = chars_of(name);
    if c.len() <= width {
        return pad(name.to_string(), width);
    }
    let cut: usize = if width == 0 {
        0
    } else {
        width - 1
    };
    let head = slice_subrange(c.as_slice(), 0, cut);
    let mut s = string_of(head);
    s.push('…');
    assert(s@ =~= (if width == 0 {
        seq!['…']
    } else {
        name@.take(width - 1).push('…')
    }));
    pad(s, width)
}

/// A name takes its column and no more, if the column has any width.
pub proof fn law_column_is_filled(name: Text, width: nat)
    requires
        width > 0,
    ensures
        in_column(name, width).len() == width,
{
    if name.len() < width {
        lemma_spaces((width - name.len()) as nat);
    }
}

proof fn lemma_spaces(n: nat)
    ensures
        repeated(" "@, n).len() == n,
    decreases n,
{
    reveal_strlit(" ");
    if n > 0 {
        lemma_spaces((n - 1) as nat);
    }
}

/// `n`, but at least `low` and at most `high`.
pub open spec fn within(n: int, low: int, high: int) -> int {
    if n < low {
        low
    } else if n > high {
        high
    } else {
        n
    }
}

fn keep_within(n: usize, low: usize, high: usize) -> (r: usize)
    requires
        low <= high,
    ensures
        r == within(n as int, low as int, high as int),
{
    if n < low {
        low
    } else if n > high {
        high
    } else {
        n
    }
}

/// Whether a row of `width` characters has room for the numbers of keys.
pub open spec fn shows_counts(width: int) -> bool {
    width >= 88
}

/// How wide the bar is in a row of `width` characters with a name of `name_w`.
pub open spec fn bar_width(width: int, name_w: int) -> int {
    within(
        width - name_w - 25 - (if shows_counts(width) {
            16int
        } else {
            0
        }),
        8,
        64,
    )
}

/// How wide the bar is in a row, and whether the row has room for the numbers of keys.
pub fn bar_budget(width: usize, name_w: usize) -> (r: (usize, bool))
    ensures
        r.0 == bar_width(width as int, name_w as int),
        r.1 == shows_counts(width as int),
{
    let show_counts: bool = width >= 88;
    let others: usize = if show_counts {
        25 + 16
    } else {
        25
    };
    let rest: usize = if width > others && width - others > name_w {
        width - others - name_w
    } else {
        0
    };
    (keep_within(rest, 8, 64), show_counts)
}

// ---------------------------------------------------------------------------------------
// Bars

/// The color for how the numbers of copies stand.
pub open spec fn health_shade(kind: Text) -> Color {
    if kind == "ok"@ {
        Color::Green
    } else if kind == "mixed"@ {
        Color::Yellow
    } else if kind == "poor"@ {
        Color::Red
    } else {
        Color::DarkGray
    }
}

/// The color for how the numbers of copies stand.
pub fn health_color(kind: &str) -> (r: Color)
    ensures
        r == health_shade(kind@),
{
    if same_text(kind, "ok") {
        Color::Green
    } else if same_text(kind, "mixed") {
        Color::Yellow
    } else if same_text(kind, "poor") {
        Color::Red
    } else {
        Color::DarkGray
    }
}

/// A bar of `width` characters, of which `filled` are filled.
pub open spec fn bar(filled: nat, width: nat, color: Color) -> Seq<SegmentView> {
    let n = if filled <= width {
        filled
    } else {
        width
    };
    seq![
        colored(repeated("█"@, n), color),
        colored(repeated("░"@, (width - n) as nat), Color::DarkGray),
    ]
}

fn push_bar(row: &mut Vec<Segment>, filled: usize, width: usize, color: Color)
    ensures
        final(row).deep_view() == old(row).deep_view() + bar(filled as nat, width as nat, color),
{
    let ghost before = row.deep_view();
    let n: usize = if filled <= width {
        filled
    } else {
        width
    };
    push_colored(row, repeat_of("█", n), color);
    push_colored(row, repeat_of("░", width - n), Color::DarkGray);
    assert(row.deep_view() =~= before + bar(filled as nat, width as nat, color));
}

/// How many characters stand for the keys with too few copies, with the right number, and
/// with more.
#[derive(Debug, Clone, Copy, PartialEq, Eq, Structural)]
pub struct CopyFill {
    pub under: usize,
    pub ok: usize,
    pub over: usize,
}

/// The smaller of two numbers.
pub open spec fn smaller(a: int, b: int) -> int {
    if a <= b {
        a
    } else {
        b
    }
}

/// The fill made to take `width` characters. What is too much is taken from those with more
/// copies first and from those with too few last; what is left over goes to those with the
/// right number.
pub open spec fn fitted(f: CopyFill, width: usize) -> CopyFill {
    let under = smaller(f.under as int, width as int);
    let ok = smaller(f.ok as int, width - under);
    let over = smaller(f.over as int, width - under - ok);
    CopyFill { under: under as usize, ok: (width - under - over) as usize, over: over as usize }
}

/// The fill made to take `width` characters.
pub fn fit_copies(f: CopyFill, width: usize) -> (r: CopyFill)
    ensures
        r == fitted(f, width),
        r.under + r.ok + r.over == width,
{
    let under: usize = if f.under <= width {
        f.under
    } else {
        width
    };
    let ok: usize = if f.ok <= width - under {
        f.ok
    } else {
        width - under
    };
    let over: usize = if f.over <= width - under - ok {
        f.over
    } else {
        width - under - ok
    };
    CopyFill { under, ok: width - under - over, over }
}

/// A fill that fits is left as it is, and keys with too few copies lose no character while
/// others have one to give.
pub proof fn law_fit_keeps_under(f: CopyFill, width: usize)
    ensures
        f.under + f.ok + f.over == width ==> fitted(f, width) == f,
        f.under <= width ==> fitted(f, width).under == f.under,
        fitted(f, width).over <= f.over,
{
}

/// The bar of the numbers of copies, where `keys` keys are known.
pub open spec fn copy_bar(keys: usize, f: CopyFill, width: usize) -> Seq<SegmentView> {
    if keys == 0 || width == 0 {
        seq![colored(repeated("░"@, width as nat), Color::DarkGray)]
    } else {
        let g = fitted(f, width);
        let none = Seq::<SegmentView>::empty();
        let under = if g.under > 0 {
            none.push(colored(repeated("█"@, g.under as nat), Color::Red))
        } else {
            none
        };
        let ok = if g.ok > 0 {
            under.push(colored(repeated("█"@, g.ok as nat), Color::Green))
        } else {
            under
        };
        if g.over > 0 {
            ok.push(colored(repeated("█"@, g.over as nat), Color::Cyan))
        } else {
            ok
        }
    }
}

/// The bar of the numbers of copies, where `keys` keys are known and `f` says how many
/// characters stand for them.
pub fn copy_mini(keys: usize, f: CopyFill, width: usize) -> (r: Vec<Segment>)
    ensures
        r.deep_view() == copy_bar(keys, f, width),
{
    let mut row = no_segments();
    if keys == 0 || width == 0 {
        push_colored(&mut row, repeat_of("░", width), Color::DarkGray);
        return row;
    }
    let g = fit_copies(f, width);
    if g.under > 0 {
        push_colored(&mut row, repeat_of("█", g.under), Color::Red);
    }
    if g.ok > 0 {
        push_colored(&mut row, repeat_of("█", g.ok), Color::Green);
    }
    if g.over > 0 {
        push_colored(&mut row, repeat_of("█", g.over), Color::Cyan);
    }
    row
}

fn push_segments(row: &mut Vec<Segment>, more: Vec<Segment>)
    ensures
        final(row).deep_view() == old(row).deep_view() + more.deep_view(),
{
    let ghost before = row.deep_view();
    let ghost d = more.deep_view();
    let mut more = more;
    row.append(&mut more);
    assert(row.deep_view() =~= before + d);
}

// ---------------------------------------------------------------------------------------
// Rows of the dashboards

/// The row of a repository, with `filled` characters of its bar filled.
pub open spec fn repo_line(
    r: VisualRepoView,
    filled: usize,
    f: CopyFill,
    name_w: usize,
    bar_w: usize,
    show_counts: bool,
) -> Seq<SegmentView> {
    let head = seq![colored(in_column(r.name, name_w as nat), Color::White), plain(" "@)] + bar(
        filled as nat,
        bar_w as nat,
        health_shade(copy_health(r.keys_tracked, r.keys_under)),
    );
    let body = head.push(
        colored(" "@ + right_aligned(bytes_text(r.unique_size as nat), 9), Color::Gray),
    ).push(colored(" n="@ + decimal(r.numcopies as nat), Color::DarkGray)).push(plain(" "@))
        + copy_bar(r.keys_tracked, f, 8);
    if r.keys_tracked == 0 {
        body.push(colored(" pending"@, Color::DarkGray))
    } else if show_counts {
        body.push(
            colored(
                " ↓"@ + decimal(r.keys_under as nat) + " ✓"@ + decimal(r.keys_ok as nat) + " ↑"@
                    + decimal(r.keys_over as nat),
                Color::Gray,
            ),
        )
    } else {
        body
    }
}

/// The row of a repository, with `filled` characters of its bar filled.
pub fn repo_row(
    repo: &VisualRepo,
    filled: usize,
    f: CopyFill,
    name_w: usize,
    bar_w: usize,
    show_counts: bool,
) -> (r: Vec<Segment>)
    ensures
        r.deep_view() == repo_line(repo.deep_view(), filled, f, name_w, bar_w, show_counts),
{
    let color = health_color(repo.health_kind());
    let mut row = no_segments();
    push_colored(&mut row, trunc_name(repo.name.as_str(), name_w), Color::White);
    push_plain(&mut row, " ".to_string());
    push_bar(&mut row, filled, bar_w, color);
    push_colored(
        &mut row,
        labelled(" ", align_right(human_bytes(repo.unique_size), 9).as_str()),
        Color::Gray,
    );
    push_colored(
        &mut row,
        labelled(" n=", decimal_of(repo.numcopies as u64).as_str()),
        Color::DarkGray,
    );
    push_plain(&mut row, " ".to_string());
    push_segments(&mut row, copy_mini(repo.keys_tracked, f, 8));
    if repo.keys_tracked == 0 {
        push_colored(&mut row, " pending".to_string(), Color::DarkGray);
    } else if show_counts {
        push_colored(
            &mut row,
            labelled(" ↓", count_text(repo.keys_under).as_str()).concat(" ✓").concat(
                count_text(repo.keys_ok).as_str(),
            ).concat(" ↑").concat(count_text(repo.keys_over).as_str()),
            Color::Gray,
        );
    }
    row
}

/// The row of a drive, with `filled` characters of its bar filled.
pub open spec fn remote_line(
    name: Text,
    bytes: u64,
    count: Option<usize>,
    filled: usize,
    name_w: usize,
    bar_w: usize,
    color: Color,
) -> Seq<SegmentView> {
    let row = (seq![colored(in_column(name, name_w as nat), color), plain(" "@)] + bar(
        filled as nat,
        bar_w as nat,
        color,
    )).push(colored(" "@ + right_aligned(bytes_text(bytes as nat), 9), Color::Gray));
    match count {
        Some(c) => row.push(colored(" "@ + decimal(c as nat) + " keys"@, Color::DarkGray)),
        None => row,
    }
}

/// The row of a drive, with `filled` characters of its bar filled.
pub fn remote_row(
    name: &str,
    bytes: u64,
    count: Option<usize>,
    filled: usize,
    name_w: usize,
    bar_w: usize,
    color: Color,
) -> (r: Vec<Segment>)
    ensures
        r.deep_view() == remote_line(name@, bytes, count, filled, name_w, bar_w, color),
{
    let mut row = no_segments();
    push_colored(&mut row, trunc_name(name, name_w), color);
    push_plain(&mut row, " ".to_string());
    push_bar(&mut row, filled, bar_w, color);
    push_colored(
        &mut row,
        labelled(" ", align_right(human_bytes(bytes), 9).as_str()),
        Color::Gray,
    );
    if let Some(c) = count {
        push_colored(
            &mut row,
            labelled(" ", count_text(c).as_str()).concat(" keys"),
            Color::DarkGray,
        );
    }
    row
}

// ---------------------------------------------------------------------------------------
// The dashboards

/// How much of the bars in the row of a repository is filled.
#[derive(Debug, Clone, Copy, PartialEq, Eq, Structural)]
pub struct RowFill {
    pub filled: usize,
    pub copies: CopyFill,
}

/// The row on the sizes, which both dashboards begin with.
pub open spec fn sizes_line(unique: u64, stored: u64, note: Text) -> Seq<SegmentView> {
    seq![
        plain("unique "@),
        strong(bytes_text(unique as nat), Color::Cyan),
        plain("   stored "@),
        colored(bytes_text(stored as nat), Color::White),
        plain("   "@ + note),
    ]
}

fn sizes_row(unique: u64, stored: u64, note: &str) -> (r: Vec<Segment>)
    ensures
        r.deep_view() == sizes_line(unique, stored, note@),
{
    let mut row = no_segments();
    push_plain(&mut row, "unique ".to_string());
    push_strong(&mut row, human_bytes(unique), Color::Cyan);
    push_plain(&mut row, "   stored ".to_string());
    push_colored(&mut row, human_bytes(stored), Color::White);
    push_plain(&mut row, labelled("   ", note));
    row
}

/// What the colors mean.
pub open spec fn legend_line() -> Seq<SegmentView> {
    seq![
        colored("↓under "@, Color::Red),
        colored("✓ok "@, Color::Green),
        colored("↑extra "@, Color::Cyan),
        colored("bar color = copy health vs numcopies"@, Color::DarkGray),
    ]
}

fn legend_row() -> (r: Vec<Segment>)
    ensures
        r.deep_view() == legend_line(),
{
    let mut row = no_segments();
    push_colored(&mut row, "↓under ".to_string(), Color::Red);
    push_colored(&mut row, "✓ok ".to_string(), Color::Green);
    push_colored(&mut row, "↑extra ".to_string(), Color::Cyan);
    push_colored(&mut row, "bar color = copy health vs numcopies".to_string(), Color::DarkGray);
    row
}

/// A heading.
pub open spec fn heading(text: Text) -> Seq<SegmentView> {
    seq![strong(text, Color::Yellow)]
}

fn heading_row(text: &str) -> (r: Vec<Segment>)
    ensures
        r.deep_view() == heading(text@),
{
    let mut row = no_segments();
    push_strong(&mut row, text.to_string(), Color::Yellow);
    row
}

/// How wide the names are on the dashboard of all repositories.
pub open spec fn report_name_width(width: usize) -> int {
    within(width as int / 4, 14, 24)
}

/// The rows of the repositories.
pub open spec fn repo_lines(repos: Seq<VisualRepoView>, fills: Seq<RowFill>, width: usize) -> Seq<
    Seq<SegmentView>,
> {
    let name_w = report_name_width(width);
    Seq::new(
        repos.len(),
        |i: int|
            repo_line(
                repos[i],
                fills[i].filled,
                fills[i].copies,
                name_w as usize,
                bar_width(width as int, name_w) as usize,
                shows_counts(width as int),
            ),
    )
}

/// The rows of the drives over all repositories.
pub open spec fn shared_lines(remotes: Seq<(Text, u64)>, fills: Seq<usize>, width: usize) -> Seq<
    Seq<SegmentView>,
> {
    let name_w = report_name_width(width);
    Seq::new(
        remotes.len(),
        |i: int|
            remote_line(
                remotes[i].0,
                remotes[i].1,
                None,
                fills[i],
                within(name_w, 16, 28) as usize,
                bar_width(width as int, name_w) as usize,
                Color::Magenta,
            ),
    )
}

/// The dashboard of all repositories, `width` characters wide.
pub open spec fn report_screen(
    v: ReportView,
    width: usize,
    fills: Seq<RowFill>,
    remote_fills: Seq<usize>,
) -> Seq<Seq<SegmentView>> {
    let head = seq![
        sizes_line(v.unique_size, v.consumed_size, decimal(v.repos.len()) + " repos"@),
        legend_line(),
        Seq::empty(),
        heading("data by repo"@),
    ];
    let repos = head + repo_lines(v.repos, fills, width);
    if v.remotes.len() == 0 {
        repos
    } else {
        repos.push(Seq::empty()).push(heading("special remotes"@)) + shared_lines(
            v.remotes,
            remote_fills,
            width,
        )
    }
}

/// The largest of the sizes, for the bars of the repositories.
pub open spec fn largest_repo(repos: Seq<VisualRepoView>) -> u64
    decreases repos.len(),
{
    if repos.len() == 0 {
        0
    } else {
        let before = largest_repo(repos.drop_last());
        if repos.last().unique_size > before {
            repos.last().unique_size
        } else {
            before
        }
    }
}

/// The largest of the sizes, for the bars of the drives over all repositories.
pub open spec fn largest_shared(remotes: Seq<(Text, u64)>) -> u64
    decreases remotes.len(),
{
    if remotes.len() == 0 {
        0
    } else {
        let before = largest_shared(remotes.drop_last());
        if remotes.last().1 > before {
            remotes.last().1
        } else {
            before
        }
    }
}

/// The largest of the sizes, for the bars of the drives of a repository.
pub open spec fn largest_remote(remotes: Seq<VisualRemoteView>) -> u64
    decreases remotes.len(),
{
    if remotes.len() == 0 {
        0
    } else {
        let before = largest_remote(remotes.drop_last());
        if remotes.last().size > before {
            remotes.last().size
        } else {
            before
        }
    }
}

/// The largest size of a repository.
pub fn largest_repo_of(repos: &Vec<VisualRepo>) -> (r: u64)
    ensures
        r == largest_repo(repos.deep_view()),
{
    let ghost d = repos.deep_view();
    let mut largest: u64 = 0;
    let mut i: usize = 0;
    while i < repos.len()
        invariant
            i <= repos@.len(),
            d == repos.deep_view(),
            largest == largest_repo(d.take(i as int)),
        decreases repos@.len() - i,
    {
        proof {
            assert(d.take(i + 1).drop_last() =~= d.take(i as int));
            assert(d.take(i + 1).last() == d[i as int]);
        }
        if repos[i].unique_size > largest {
            largest = repos[i].unique_size;
        }
        i += 1;
    }
    assert(d.take(i as int) =~= d);
    largest
}

/// The largest size of a drive over all repositories.
pub fn largest_shared_of(remotes: &Vec<(String, u64)>) -> (r: u64)
    ensures
        r == largest_shared(remotes.deep_view()),
{
    let ghost d = remotes.deep_view();
    let mut largest: u64 = 0;
    let mut i: usize = 0;
    while i < remotes.len()
        invariant
            i <= remotes@.len(),
            d == remotes.deep_view(),
            largest == largest_shared(d.take(i as int)),
        decreases remotes@.len() - i,
    {
        proof {
            assert(d.take(i + 1).drop_last() =~= d.take(i as int));
            assert(d.take(i + 1).last() == d[i as int]);
        }
        if remotes[i].1 > largest {
            largest = remotes[i].1;
        }
        i += 1;
    }
    assert(d.take(i as int) =~= d);
    largest
}

/// The largest size of a drive of a repository.
pub fn largest_remote_of(remotes: &Vec<VisualRemote>) -> (r: u64)
    ensures
        r == largest_remote(remotes.deep_view()),
{
    let ghost d = remotes.deep_view();
    let mut largest: u64 = 0;
    let mut i: usize = 0;
    while i < remotes.len()
        invariant
            i <= remotes@.len(),
            d == remotes.deep_view(),
            largest == largest_remote(d.take(i as int)),
        decreases remotes@.len() - i,
    {
        proof {
            assert(d.take(i + 1).drop_last() =~= d.take(i as int));
            assert(d.take(i + 1).last() == d[i as int]);
        }
        if remotes[i].size > largest {
            largest = remotes[i].size;
        }
        i += 1;
    }
    assert(d.take(i as int) =~= d);
    largest
}

/// How wide the bars are on the dashboard of all repositories.
pub fn report_bar_width(width: usize) -> (r: usize)
    ensures
        r == bar_width(width as int, report_name_width(width)),
{
    bar_budget(width, keep_within(width / 4, 14, 24)).0
}

/// The dashboard of all repositories, `width` characters wide, with the bars filled as `fills`
/// and `remote_fills` say.
pub fn report_rows(
    v: &VisualReport,
    width: usize,
    fills: &Vec<RowFill>,
    remote_fills: &Vec<usize>,
) -> (r: Vec<Vec<Segment>>)
    requires
        fills@.len() == v.repos@.len(),
        remote_fills@.len() == v.remotes@.len(),
    ensures
        r.deep_view() == report_screen(v.deep_view(), width, fills@, remote_fills@),
{
    let name_w: usize = keep_within(width / 4, 14, 24);
    let (bar_w, show_counts) = bar_budget(width, name_w);
    let mut lines = no_lines();
    push_line(
        &mut lines,
        sizes_row(
            v.unique_size,
            v.consumed_size,
            count_text(v.repos.len()).concat(" repos").as_str(),
        ),
    );
    push_line(&mut lines, legend_row());
    push_line(&mut lines, no_segments());
    push_line(&mut lines, heading_row("data by repo"));
    let ghost start = lines.deep_view();
    let ghost rows = repo_lines(v.repos.deep_view(), fills@, width);
    let mut i: usize = 0;
    assert(start + rows.take(0) =~= start);
    while i < v.repos.len()
        invariant
            i <= v.repos@.len(),
            fills@.len() == v.repos@.len(),
            rows == repo_lines(v.repos.deep_view(), fills@, width),
            name_w == report_name_width(width),
            bar_w == bar_width(width as int, name_w as int),
            show_counts == shows_counts(width as int),
            lines.deep_view() == start + rows.take(i as int),
        decreases v.repos@.len() - i,
    {
        assert(v.repos.deep_view()[i as int] == v.repos@[i as int].deep_view());
        let fill = fills[i];
        push_line(
            &mut lines,
            repo_row(&v.repos[i], fill.filled, fill.copies, name_w, bar_w, show_counts),
        );
        assert(start + rows.take(i + 1) =~= (start + rows.take(i as int)).push(rows[i as int]));
        i += 1;
    }
    assert(rows.take(i as int) =~= rows);
    if v.remotes.len() > 0 {
        push_line(&mut lines, no_segments());
        push_line(&mut lines, heading_row("special remotes"));
        let ghost start = lines.deep_view();
        let ghost rows = shared_lines(v.remotes.deep_view(), remote_fills@, width);
        let shared_w: usize = keep_within(name_w, 16, 28);
        let mut k: usize = 0;
        assert(start + rows.take(0) =~= start);
        while k < v.remotes.len()
            invariant
                k <= v.remotes@.len(),
                remote_fills@.len() == v.remotes@.len(),
                rows == shared_lines(v.remotes.deep_view(), remote_fills@, width),
                shared_w == within(report_name_width(width), 16, 28),
                bar_w == bar_width(width as int, report_name_width(width)),
                lines.deep_view() == start + rows.take(k as int),
            decreases v.remotes@.len() - k,
        {
            assert(v.remotes.deep_view()[k as int] == v.remotes@[k as int].deep_view());
            push_line(
                &mut lines,
                remote_row(
                    v.remotes[k].0.as_str(),
                    v.remotes[k].1,
                    None,
                    remote_fills[k],
                    shared_w,
                    bar_w,
                    Color::Magenta,
                ),
            );
            assert(start + rows.take(k + 1) =~= (start + rows.take(k as int)).push(
                rows[k as int],
            ));
            k += 1;
        }
        assert(rows.take(k as int) =~= rows);
    }
    lines
}

/// The title of the dashboard of all repositories.
pub fn report_title(scanning: bool, zoomed: bool) -> (r: &'static str)
    ensures
        r@ == (if scanning {
            " visual report (updating)  z=zoom "@
        } else if zoomed {
            " visual report  z/h=back to list "@
        } else {
            " visual report  z=full screen "@
        }),
{
    if scanning {
        " visual report (updating)  z=zoom "
    } else if zoomed {
        " visual report  z/h=back to list "
    } else {
        " visual report  z=full screen "
    }
}

/// The title of the dashboard of a repository.
pub fn detail_title(name: &str, scanning: bool, zoomed: bool) -> (r: String)
    ensures
        r@ == (if scanning {
            " "@ + name@ + "  (updating)  z=zoom "@
        } else if zoomed {
            " "@ + name@ + "  z/h=back to list "@
        } else {
            " "@ + name@ + "  z=full screen "@
        }),
{
    let title = labelled(" ", name);
    if scanning {
        title.concat("  (updating)  z=zoom ")
    } else if zoomed {
        title.concat("  z/h=back to list ")
    } else {
        title.concat("  z=full screen ")
    }
}

/// How wide the names are on the dashboard of a repository.
pub open spec fn detail_name_width(width: usize) -> int {
    within(width as int / 3, 14, 28)
}

/// How wide the bar of the numbers of copies is on the dashboard of a repository.
pub open spec fn health_bar_width(width: usize) -> int {
    let w = bar_width(width as int, detail_name_width(width));
    if w > 16 {
        w
    } else {
        16
    }
}

/// The color of a drive.
pub open spec fn remote_shade(kind: VisualRemoteKind) -> Color {
    match kind {
        VisualRemoteKind::Here => Color::Green,
        VisualRemoteKind::Special => Color::Magenta,
        VisualRemoteKind::Other => Color::Blue,
    }
}

/// The rows of the drives of a repository.
pub open spec fn drive_lines(remotes: Seq<VisualRemoteView>, fills: Seq<usize>, width: usize) -> Seq<
    Seq<SegmentView>,
> {
    let name_w = detail_name_width(width);
    Seq::new(
        remotes.len(),
        |i: int|
            remote_line(
                remotes[i].name,
                remotes[i].size,
                Some(remotes[i].count),
                fills[i],
                name_w as usize,
                bar_width(width as int, name_w) as usize,
                remote_shade(remotes[i].kind),
            ),
    )
}

/// The row on how the numbers of copies stand.
pub open spec fn health_line(kind: Text) -> Seq<SegmentView> {
    seq![plain("copy health  "@), strong(kind, health_shade(kind)), plain("   "@)]
}

/// The bar of the numbers of copies, with the numbers.
pub open spec fn counts_line(v: DetailView, f: CopyFill, width: usize) -> Seq<SegmentView> {
    (seq![plain("             "@)] + copy_bar(
        v.keys_tracked,
        f,
        health_bar_width(width) as usize,
    )).push(
        colored(
            "  ↓"@ + decimal(v.keys_under as nat) + "  ✓"@ + decimal(v.keys_ok as nat) + "  ↑"@
                + decimal(v.keys_over as nat),
            Color::Gray,
        ),
    )
}

/// The dashboard of a repository, `width` characters wide.
pub open spec fn detail_screen(v: DetailView, width: usize, f: CopyFill, fills: Seq<usize>) -> Seq<
    Seq<SegmentView>,
> {
    let head = seq![
        sizes_line(
            v.unique_size,
            v.consumed_size,
            "numcopies "@ + decimal(v.numcopies as nat),
        ),
        health_line(copy_health(v.keys_tracked, v.keys_under)),
        counts_line(v, f, width),
        Seq::empty(),
        heading("on remotes / drives"@),
    ];
    if v.remotes.len() == 0 {
        head.push(seq![colored("  no location data yet"@, Color::DarkGray)])
    } else {
        head + drive_lines(v.remotes, fills, width)
    }
}

fn remote_color(kind: VisualRemoteKind) -> (r: Color)
    ensures
        r == remote_shade(kind),
{
    match kind {
        VisualRemoteKind::Here => Color::Green,
        VisualRemoteKind::Special => Color::Magenta,
        VisualRemoteKind::Other => Color::Blue,
    }
}

/// How wide the bars of the drives and the bar of the numbers of copies are on the dashboard
/// of a repository.
pub fn detail_bar_widths(width: usize) -> (r: (usize, usize))
    ensures
        r.0 == bar_width(width as int, detail_name_width(width)),
        r.1 == health_bar_width(width),
{
    let (bar_w, _counts) = bar_budget(width, keep_within(width / 3, 14, 28));
    let health_w: usize = if bar_w > 16 {
        bar_w
    } else {
        16
    };
    (bar_w, health_w)
}

/// The dashboard of a repository, `width` characters wide, with the bars filled as `f` and
/// `fills` say.
pub fn detail_rows(v: &VisualRepoDetail, width: usize, f: CopyFill, fills: &Vec<usize>) -> (r: Vec<
    Vec<Segment>,
>)
    requires
        fills@.len() == v.remotes@.len(),
    ensures
        r.deep_view() == detail_screen(v.deep_view(), width, f, fills@),
{
    let name_w: usize = keep_within(width / 3, 14, 28);
    let (bar_w, health_w) = detail_bar_widths(width);
    let mut lines = no_lines();
    push_line(
        &mut lines,
        sizes_row(
            v.unique_size,
            v.consumed_size,
            labelled("numcopies ", decimal_of(v.numcopies as u64).as_str()).as_str(),
        ),
    );
    let kind = v.health_kind();
    let mut health = no_segments();
    push_plain(&mut health, "copy health  ".to_string());
    push_strong(&mut health, kind.to_string(), health_color(kind));
    push_plain(&mut health, "   ".to_string());
    assert(health.deep_view() =~= health_line(copy_health(v.keys_tracked, v.keys_under)));
    push_line(&mut lines, health);
    let mut counts = no_segments();
    push_plain(&mut counts, "             ".to_string());
    push_segments(&mut counts, copy_mini(v.keys_tracked, f, health_w));
    push_colored(
        &mut counts,
        labelled("  ↓", count_text(v.keys_under).as_str()).concat("  ✓").concat(
            count_text(v.keys_ok).as_str(),
        ).concat("  ↑").concat(count_text(v.keys_over).as_str()),
        Color::Gray,
    );
    assert(counts.deep_view() =~= counts_line(v.deep_view(), f, width));
    push_line(&mut lines, counts);
    push_line(&mut lines, no_segments());
    push_line(&mut lines, heading_row("on remotes / drives"));
    if v.remotes.len() == 0 {
        let mut none = no_segments();
        push_colored(&mut none, "  no location data yet".to_string(), Color::DarkGray);
        assert(none.deep_view() =~= seq![colored("  no location data yet"@, Color::DarkGray)]);
        push_line(&mut lines, none);
        assert(lines.deep_view() =~= detail_screen(v.deep_view(), width, f, fills@));
        return lines;
    }
    let ghost start = lines.deep_view();
    let ghost rows = drive_lines(v.remotes.deep_view(), fills@, width);
    let mut i: usize = 0;
    assert(start + rows.take(0) =~= start);
    while i < v.remotes.len()
        invariant
            i <= v.remotes@.len(),
            fills@.len() == v.remotes@.len(),
            rows == drive_lines(v.remotes.deep_view(), fills@, width),
            name_w == detail_name_width(width),
            bar_w == bar_width(width as int, name_w as int),
            lines.deep_view() == start + rows.take(i as int),
        decreases v.remotes@.len() - i,
    {
        let r = &v.remotes[i];
        assert(v.remotes.deep_view()[i as int] == r.deep_view());
        push_line(
            &mut lines,
            remote_row(
                r.name.as_str(),
                r.size,
                Some(r.count),
                fills[i],
                name_w,
                bar_w,
                remote_color(r.kind),
            ),
        );
        assert(start + rows.take(i + 1) =~= (start + rows.take(i as int)).push(rows[i as int]));
        i += 1;
    }
    assert(rows.take(i as int) =~= rows);
    lines
}

// ---------------------------------------------------------------------------------------
// The list

/// The style of what a row is.
pub open spec fn kind_segment(kind: Text) -> SegmentView {
    let text = "["@ + kind + "] "@;
    if kind == "drive"@ {
        colored(text, Color::Blue)
    } else if kind == "here"@ {
        strong(text, Color::Green)
    } else if kind == "repo"@ {
        colored(text, Color::Magenta)
    } else if kind == "file"@ {
        colored(text, Color::Gray)
    } else if kind == "report"@ || kind == "viz"@ {
        strong(text, Color::Yellow)
    } else {
        plain(text)
    }
}

/// The color of a trust level.
pub open spec fn trust_shade(t: TrustLevel) -> Color {
    match t {
        TrustLevel::Trusted => Color::Green,
        TrustLevel::SemiTrusted => Color::Yellow,
        TrustLevel::UnTrusted => Color::Red,
        TrustLevel::Dead => Color::DarkGray,
    }
}

/// A row of the list. What is set up otherwise than usual stands out, and else a drive has the
/// color of its trust level.
pub open spec fn item_line(it: ItemView, selected: bool) -> Seq<SegmentView> {
    seq![
        plain(
            if selected {
                "▶ "@
            } else {
                "  "@
            },
        ),
        kind_segment(it.kind),
        if it.anomalous {
            strong(it.label, Color::Red)
        } else {
            match it.trust {
                Some(t) => colored(it.label, trust_shade(t)),
                None => plain(it.label),
            }
        },
    ]
}

/// The rows of the list that the filter lets through.
pub open spec fn list_screen(s: SnapshotView, filter: Text) -> Seq<Seq<SegmentView>> {
    visible_rows(s.list, filter).map_values(
        |i: usize| item_line(s.list[i as int], i == s.selected),
    )
}

fn push_kind(row: &mut Vec<Segment>, kind: &str)
    ensures
        final(row).deep_view() == old(row).deep_view().push(kind_segment(kind@)),
{
    let text = labelled("[", kind).concat("] ");
    if same_text(kind, "drive") {
        push_colored(row, text, Color::Blue);
    } else if same_text(kind, "here") {
        push_strong(row, text, Color::Green);
    } else if same_text(kind, "repo") {
        push_colored(row, text, Color::Magenta);
    } else if same_text(kind, "file") {
        push_colored(row, text, Color::Gray);
    } else if same_text(kind, "report") || same_text(kind, "viz") {
        push_strong(row, text, Color::Yellow);
    } else {
        push_plain(row, text);
    }
}

fn item_row(it: &ListItem, selected: bool) -> (r: Vec<Segment>)
    ensures
        r.deep_view() == item_line(it.deep_view(), selected),
{
    let mut row = no_segments();
    push_plain(
        &mut row,
        if selected {
            "▶ ".to_string()
        } else {
            "  ".to_string()
        },
    );
    push_kind(&mut row, it.kind.as_str());
    if it.anomalous {
        push_strong(&mut row, it.label.clone(), Color::Red);
    } else {
        match it.trust {
            Some(t) => push_colored(&mut row, it.label.clone(), trust_color(t)),
            None => push_plain(&mut row, it.label.clone()),
        }
    }
    row
}

/// The rows of the list that the filter lets through.
pub fn list_rows(s: &ViewSnapshot, filter: &str) -> (r: Vec<Vec<Segment>>)
    ensures
        r.deep_view() == list_screen(s.deep_view(), filter@),
{
    let n: usize = s.list.len();
    let rows = visible_indices(&s.list, filter);
    let ghost v = s.deep_view();
    let ghost line = |i: usize| item_line(v.list[i as int], i == v.selected);
    let ghost d = rows@;
    let mut lines = no_lines();
    let mut k: usize = 0;
    proof {
        assert(v.list.len() == n);
        law_visible_rows(v.list, filter@);
        assert(lines.deep_view() =~= d.take(0).map_values(line));
    }
    while k < rows.len()
        invariant
            k <= rows@.len(),
            d == rows@,
            v == s.deep_view(),
            forall|j: int| 0 <= j < d.len() ==> (#[trigger] d[j]) < v.list.len(),
            line == (|i: usize| item_line(v.list[i as int], i == v.selected)),
            lines.deep_view() == d.take(k as int).map_values(line),
        decreases rows@.len() - k,
    {
        let i: usize = rows[k];
        assert(d[k as int] < v.list.len());
        assert(v.list[i as int] == s.list@[i as int].deep_view());
        push_line(&mut lines, item_row(&s.list[i], i == s.selected));
        assert(d.take(k + 1).map_values(line) =~= d.take(k as int).map_values(line).push(
            line(d[k as int]),
        ));
        k += 1;
    }
    assert(d.take(k as int) =~= d);
    lines
}

/// Which of the rows that the filter lets through is selected, if one is.
pub fn selected_visible(s: &ViewSnapshot, filter: &str) -> (r: Option<usize>)
    ensures
        ({
            let rows = visible_rows(s.deep_view().list, filter@);
            let i = first_place(rows, s.deep_view().selected);
            r == (if i < rows.len() {
                Some(i as usize)
            } else {
                None
            })
        }),
{
    let rows = visible_indices(&s.list, filter);
    let i: usize = find_place(&rows, s.selected);
    if i < rows.len() {
        Some(i)
    } else {
        None
    }
}

/// The title of the list.
pub fn list_title(s: &ViewSnapshot) -> (r: String)
    ensures
        r@ == " git-annex-browser ("@ + decimal(s.deep_view().total_repos as nat) + ") "@,
{
    labelled(" git-annex-browser (", count_text(s.total_repos).as_str()).concat(") ")
}

/// The nodes that were entered, from the top down.
pub fn breadcrumb(s: &ViewSnapshot) -> (r: String)
    ensures
        r@ == join(s.deep_view().crumb, "  ▸  "@),
{
    join_of(&s.crumb, "  ▸  ")
}

/// The row at the bottom.
pub open spec fn status_text(
    s: SnapshotView,
    busy: bool,
    filter: Text,
    editing: bool,
    zoom: bool,
) -> Text {
    s.status + (if busy {
        " [busy]"@
    } else {
        ""@
    }) + (if editing {
        "  filter: "@ + filter + "_"@
    } else if filter.len() > 0 {
        "  filter: "@ + filter
    } else {
        ""@
    }) + "  •  "@ + decimal(s.total_repos as nat)
        + " repos  •  / filter  z zoom  ↑↓ nav  → descend  ← back  r refresh  q quit"@ + (if zoom {
        "  [zoomed]"@
    } else {
        ""@
    })
}

/// The row at the bottom.
pub fn status_row(s: &ViewSnapshot, busy: bool, filter: &str, editing: bool, zoom: bool) -> (r: String)
    ensures
        r@ == status_text(s.deep_view(), busy, filter@, editing, zoom),
{
    let busy_text = if busy {
        " [busy]"
    } else {
        ""
    };
    let filter_text = if editing {
        labelled("  filter: ", filter).concat("_")
    } else if !filter.is_empty() {
        labelled("  filter: ", filter)
    } else {
        "".to_string()
    };
    let zoom_text = if zoom {
        "  [zoomed]"
    } else {
        ""
    };
    s.status.clone().concat(busy_text).concat(filter_text.as_str()).concat("  •  ").concat(
        count_text(s.total_repos).as_str(),
    ).concat(" repos  •  / filter  z zoom  ↑↓ nav  → descend  ← back  r refresh  q quit").concat(
        zoom_text,
    )
}

// ---------------------------------------------------------------------------------------
// The details

/// Which dashboard stands for the details.
#[derive(Debug, Clone, Copy, PartialEq, Eq, Structural)]
pub enum VisualKind {
    /// None: the details are text.
    Plain,
    /// The one of all repositories.
    Global,
    /// The one of the selected repository.
    Repo,
}

/// What is selected.
pub open spec fn kind_selected(s: SnapshotView) -> Text {
    if s.selected < s.list.len() {
        s.list[s.selected as int].kind
    } else {
        ""@
    }
}

/// The first dashboard of that name; as many as there are where there is none.
pub open spec fn first_named(visuals: Seq<DetailView>, name: Text) -> nat
    decreases visuals.len(),
{
    if visuals.len() == 0 || visuals[0].name == name {
        0
    } else {
        1 + first_named(visuals.drop_first(), name)
    }
}

/// The dashboard of the selected repository.
pub open spec fn visual_selected(s: SnapshotView) -> Option<DetailView> {
    if s.selected < s.list.len() {
        match s.list[s.selected as int].repo_name {
            Some(name) => {
                let i = first_named(s.repo_visuals, name);
                if i < s.repo_visuals.len() {
                    Some(s.repo_visuals[i as int])
                } else {
                    None
                }
            },
            None => None,
        }
    } else {
        None
    }
}

/// Which dashboard stands for the details.
pub open spec fn visual_kind(s: SnapshotView) -> VisualKind {
    let kind = kind_selected(s);
    if kind == "report"@ && s.visual is Some {
        VisualKind::Global
    } else if (kind == "repo"@ || kind == "viz"@) && visual_selected(s) is Some {
        VisualKind::Repo
    } else {
        VisualKind::Plain
    }
}

/// What is selected.
pub fn selected_kind(s: &ViewSnapshot) -> (r: &str)
    ensures
        r@ == kind_selected(s.deep_view()),
{
    if s.selected < s.list.len() {
        assert(s.deep_view().list[s.selected as int] == s.list@[s.selected as int].deep_view());
        s.list[s.selected].kind.as_str()
    } else {
        ""
    }
}

fn find_named(visuals: &Vec<VisualRepoDetail>, name: &String) -> (r: usize)
    ensures
        r == first_named(visuals.deep_view(), name@),
        r <= visuals@.len(),
{
    let ghost d = visuals.deep_view();
    let mut i: usize = 0;
    assert(d.skip(0) =~= d);
    while i < visuals.len() && visuals[i].name != *name
        invariant
            i <= visuals@.len(),
            d == visuals.deep_view(),
            first_named(d, name@) == i + first_named(d.skip(i as int), name@),
        decreases visuals@.len() - i,
    {
        assert(d[i as int].name == visuals@[i as int].name@);
        assert(d.skip(i as int)[0] == d[i as int]);
        assert(d.skip(i as int).drop_first() =~= d.skip(i + 1));
        i += 1;
    }
    if i < visuals.len() {
        assert(d[i as int].name == visuals@[i as int].name@);
        assert(d.skip(i as int)[0] == d[i as int]);
    }
    i
}

/// The dashboard of the selected repository.
pub fn selected_repo_visual(s: &ViewSnapshot) -> (r: Option<&VisualRepoDetail>)
    ensures
        r.deep_view() == visual_selected(s.deep_view()),
{
    if s.selected >= s.list.len() {
        return None;
    }
    assert(s.deep_view().list[s.selected as int] == s.list@[s.selected as int].deep_view());
    match &s.list[s.selected].repo_name {
        Some(name) => {
            let i: usize = find_named(&s.repo_visuals, name);
            if i < s.repo_visuals.len() {
                assert(s.repo_visuals.deep_view()[i as int]
                    == s.repo_visuals@[i as int].deep_view());
                Some(&s.repo_visuals[i])
            } else {
                None
            }
        },
        None => None,
    }
}

/// Which dashboard stands for the details.
pub fn visual_for(s: &ViewSnapshot) -> (r: VisualKind)
    ensures
        r == visual_kind(s.deep_view()),
{
    let kind = selected_kind(s);
    if same_text(kind, "report") && s.visual.is_some() {
        VisualKind::Global
    } else if (same_text(kind, "repo") || same_text(kind, "viz")) && selected_repo_visual(
        s,
    ).is_some() {
        VisualKind::Repo
    } else {
        VisualKind::Plain
    }
}

/// The details as text, with their title.
pub fn details_text(s: &ViewSnapshot, show_raw: bool) -> (r: (String, &'static str))
    ensures
        r.0@ == (if show_raw {
            match s.deep_view().raw {
                Some(t) => t,
                None => "no raw data for selection"@,
            }
        } else {
            join(s.deep_view().details, "\n"@)
        }),
        r.1@ == (if show_raw {
            " details (raw) "@
        } else {
            " details "@
        }),
{
    if show_raw {
        let content = match &s.raw {
            Some(t) => t.clone(),
            None => "no raw data for selection".to_string(),
        };
        (content, " details (raw) ")
    } else {
        (join_of(&s.details, "\n"), " details ")
    }
}

/// How many rows the details have.
pub open spec fn detail_rows_of(s: SnapshotView) -> nat {
    match visual_kind(s) {
        VisualKind::Global => match s.visual {
            Some(v) => 4 + v.repos.len() + (if v.remotes.len() == 0 {
                0
            } else {
                2 + v.remotes.len()
            }),
            None => s.details.len(),
        },
        VisualKind::Repo => match visual_selected(s) {
            Some(v) => 7 + v.remotes.len(),
            None => s.details.len(),
        },
        VisualKind::Plain => s.details.len(),
    }
}

fn capped_sum_of(a: usize, b: usize) -> (r: usize)
    ensures
        r == capped((a + b) as nat),
{
    match a.checked_add(b) {
        Some(n) => n,
        None => usize::MAX,
    }
}

/// How many rows the details have, as far as that can be counted.
pub fn detail_scroll_rows(s: &ViewSnapshot) -> (r: usize)
    ensures
        r == capped(detail_rows_of(s.deep_view())),
{
    match visual_for(s) {
        VisualKind::Global => match &s.visual {
            Some(v) => {
                let repos: usize = capped_sum_of(4, v.repos.len());
                if v.remotes.len() == 0 {
                    repos
                } else {
                    capped_sum_of(repos, capped_sum_of(2, v.remotes.len()))
                }
            },
            None => s.details.len(),
        },
        VisualKind::Repo => match selected_repo_visual(s) {
            Some(v) => capped_sum_of(7, v.remotes.len()),
            None => s.details.len(),
        },
        VisualKind::Plain => s.details.len(),
    }
}

// ---------------------------------------------------------------------------------------
// Laws

/// How many places the segments take.
pub open spec fn places(row: Seq<SegmentView>) -> nat
    decreases row.len(),
{
    if row.len() == 0 {
        0
    } else {
        places(row.drop_last()) + row.last().text.len()
    }
}

proof fn lemma_blocks(t: Text, n: nat)
    requires
        t.len() == 1,
    ensures
        repeated(t, n).len() == n,
{
    law_repeated(t, n);
    assert(n * 1 == n) by (nonlinear_arith);
}

/// A bar is as wide as it is to be, and filled as far as it is to be, but no further than its
/// width.
pub proof fn law_bar_is_filled(filled: nat, width: nat, color: Color)
    ensures
        bar(filled, width, color).len() == 2,
        bar(filled, width, color)[0].text.len() == (if filled <= width {
            filled
        } else {
            width
        }),
        bar(filled, width, color)[0].text.len() + bar(filled, width, color)[1].text.len() == width,
        bar(filled, width, color)[0].color == color,
{
    reveal_strlit("█");
    reveal_strlit("░");
    let n = if filled <= width {
        filled
    } else {
        width
    };
    lemma_blocks("█"@, n);
    lemma_blocks("░"@, (width - n) as nat);
}

/// A name stands at the start of its column if it fits in; else as much of it as does, and a
/// mark that says so.
pub proof fn law_name_in_column(name: Text, width: nat)
    requires
        width > 0,
    ensures
        name.len() <= width ==> in_column(name, width).take(name.len() as int) == name && forall|i: int|
            name.len() <= i < width ==> #[trigger] in_column(name, width)[i] == ' ',
        name.len() > width ==> in_column(name, width).take(width - 1) == name.take(width - 1)
            && in_column(name, width)[width - 1] == '…',
{
    reveal_strlit(" ");
    if name.len() <= width {
        let n = (width - name.len()) as nat;
        law_repeated(" "@, n);
        lemma_blocks(" "@, n);
        let c = in_column(name, width);
        assert(c.take(name.len() as int) =~= name);
        assert forall|i: int| name.len() <= i < width implies #[trigger] c[i] == ' ' by {
            assert(c[i] == repeated(" "@, n)[i - name.len()]);
        }
    } else {
        assert(in_column(name, width).take(width - 1) =~= name.take(width - 1));
    }
}

/// The copies of a repository fill the width of their bar: red those that are too few, green
/// those that are enough, and cyan those that are more.
#[verifier::rlimit(40)]
pub proof fn law_copies_fill_the_bar(keys: usize, f: CopyFill, width: usize)
    ensures
        places(copy_bar(keys, f, width)) == width,
        keys > 0 && width > 0 ==> {
            let g = fitted(f, width);
            &&& g.under + g.ok + g.over == width
            &&& g.under > 0 ==> copy_bar(keys, f, width)[0].color == Color::Red && copy_bar(
                keys,
                f,
                width,
            )[0].text.len() == g.under
            &&& g.over > 0 ==> copy_bar(keys, f, width).last().color == Color::Cyan && copy_bar(
                keys,
                f,
                width,
            ).last().text.len() == g.over
        },
{
    reveal_with_fuel(places, 4);
    reveal_strlit("█");
    reveal_strlit("░");
    let row = copy_bar(keys, f, width);
    if keys == 0 || width == 0 {
        lemma_blocks("░"@, width as nat);
        assert(row.drop_last() =~= Seq::<SegmentView>::empty());
        assert(places(row) == row.last().text.len());
    } else {
        let g = fitted(f, width);
        lemma_blocks("█"@, g.under as nat);
        lemma_blocks("█"@, g.ok as nat);
        lemma_blocks("█"@, g.over as nat);
        let none = Seq::<SegmentView>::empty();
        let a = if g.under > 0 {
            none.push(colored(repeated("█"@, g.under as nat), Color::Red))
        } else {
            none
        };
        let b = if g.ok > 0 {
            a.push(colored(repeated("█"@, g.ok as nat), Color::Green))
        } else {
            a
        };
        assert(places(none) == 0);
        assert(a.len() > 0 ==> a.drop_last() =~= none);
        assert(places(a) == g.under);
        assert(g.ok > 0 ==> b.drop_last() =~= a);
        assert(places(b) == g.under + g.ok);
        assert(g.over > 0 ==> row.drop_last() =~= b);
        assert(places(row) == g.under + g.ok + g.over);
    }
}

/// The largest size is that of a row, and no row has a larger one.
pub proof fn law_largest(repos: Seq<VisualRepoView>, remotes: Seq<VisualRemoteView>, shared: Seq<(Text, u64)>)
    ensures
        forall|i: int|
            0 <= i < repos.len() ==> (#[trigger] repos[i]).unique_size <= largest_repo(repos),
        repos.len() > 0 ==> exists|i: int|
            0 <= i < repos.len() && (#[trigger] repos[i]).unique_size == largest_repo(repos),
        forall|i: int|
            0 <= i < remotes.len() ==> (#[trigger] remotes[i]).size <= largest_remote(remotes),
        remotes.len() > 0 ==> exists|i: int|
            0 <= i < remotes.len() && (#[trigger] remotes[i]).size == largest_remote(remotes),
        forall|i: int| 0 <= i < shared.len() ==> (#[trigger] shared[i]).1 <= largest_shared(shared),
        shared.len() > 0 ==> exists|i: int|
            0 <= i < shared.len() && (#[trigger] shared[i]).1 == largest_shared(shared),
{
    lemma_largest_repo(repos);
    lemma_largest_remote(remotes);
    lemma_largest_shared(shared);
}

proof fn lemma_largest_repo(repos: Seq<VisualRepoView>)
    ensures
        forall|i: int|
            0 <= i < repos.len() ==> (#[trigger] repos[i]).unique_size <= largest_repo(repos),
        repos.len() > 0 ==> exists|i: int|
            0 <= i < repos.len() && (#[trigger] repos[i]).unique_size == largest_repo(repos),
    decreases repos.len(),
{
    if repos.len() > 0 {
        let rest = repos.drop_last();
        let n = repos.len() - 1;
        lemma_largest_repo(rest);
        assert forall|i: int| 0 <= i < repos.len() implies (#[trigger] repos[i]).unique_size
            <= largest_repo(repos) by {
            if i < n {
                assert(rest[i] == repos[i]);
            }
        }
        if repos[n].unique_size >= largest_repo(rest) {
            assert(repos[n].unique_size == largest_repo(repos));
        } else {
            let i = choose|i: int|
                0 <= i < rest.len() && (#[trigger] rest[i]).unique_size == largest_repo(rest);
            assert(repos[i] == rest[i]);
        }
    }
}

proof fn lemma_largest_remote(remotes: Seq<VisualRemoteView>)
    ensures
        forall|i: int|
            0 <= i < remotes.len() ==> (#[trigger] remotes[i]).size <= largest_remote(remotes),
        remotes.len() > 0 ==> exists|i: int|
            0 <= i < remotes.len() && (#[trigger] remotes[i]).size == largest_remote(remotes),
    decreases remotes.len(),
{
    if remotes.len() > 0 {
        let rest = remotes.drop_last();
        let n = remotes.len() - 1;
        lemma_largest_remote(rest);
        assert forall|i: int| 0 <= i < remotes.len() implies (#[trigger] remotes[i]).size
            <= largest_remote(remotes) by {
            if i < n {
                assert(rest[i] == remotes[i]);
            }
        }
        if remotes[n].size >= largest_remote(rest) {
            assert(remotes[n].size == largest_remote(remotes));
        } else {
            let i = choose|i: int|
                0 <= i < rest.len() && (#[trigger] rest[i]).size == largest_remote(rest);
            assert(remotes[i] == rest[i]);
        }
    }
}

proof fn lemma_largest_shared(shared: Seq<(Text, u64)>)
    ensures
        forall|i: int| 0 <= i < shared.len() ==> (#[trigger] shared[i]).1 <= largest_shared(shared),
        shared.len() > 0 ==> exists|i: int|
            0 <= i < shared.len() && (#[trigger] shared[i]).1 == largest_shared(shared),
    decreases shared.len(),
{
    if shared.len() > 0 {
        let rest = shared.drop_last();
        let n = shared.len() - 1;
        lemma_largest_shared(rest);
        assert forall|i: int| 0 <= i < shared.len() implies (#[trigger] shared[i]).1
            <= largest_shared(shared) by {
            if i < n {
                assert(rest[i] == shared[i]);
            }
        }
        if shared[n].1 >= largest_shared(rest) {
            assert(shared[n].1 == largest_shared(shared));
        } else {
            let i = choose|i: int|
                0 <= i < rest.len() && (#[trigger] rest[i]).1 == largest_shared(rest);
            assert(shared[i] == rest[i]);
        }
    }
}

/// The list shows the rows that match, in their order, each with its kind and its label; the
/// selected one is marked, an unusual drive is red, and a drive has the color of its trust.
pub proof fn law_list_shows_rows(s: SnapshotView, filter: Text, k: int)
    requires
        0 <= k < visible_rows(s.list, filter).len(),
    ensures
        ({
            let i = visible_rows(s.list, filter)[k];
            let it = s.list[i as int];
            let row = list_screen(s, filter)[k];
            &&& list_screen(s, filter).len() == visible_rows(s.list, filter).len()
            &&& row.len() == 3
            &&& i == s.selected ==> row[0].text == "▶ "@
            &&& i != s.selected ==> row[0].text == "  "@
            &&& row[1].text == "["@ + it.kind + "] "@
            &&& row[2].text == it.label
            &&& it.anomalous ==> row[2].color == Color::Red && row[2].bold
            &&& !it.anomalous ==> !row[2].bold && match it.trust {
                Some(TrustLevel::Trusted) => row[2].color == Color::Green,
                Some(TrustLevel::SemiTrusted) => row[2].color == Color::Yellow,
                Some(TrustLevel::UnTrusted) => row[2].color == Color::Red,
                Some(TrustLevel::Dead) => row[2].color == Color::DarkGray,
                None => row[2].color == Color::Reset,
            }
        }),
{
}

/// The report has a row for each repository, with its name, its size, how many copies it asks
/// for and how many keys have too few, enough or more; and one for each drive that is shared.
#[verifier::rlimit(40)]
pub proof fn law_report_rows(
    v: ReportView,
    width: usize,
    fills: Seq<RowFill>,
    remote_fills: Seq<usize>,
    i: int,
)
    ensures
        ({
            let rows = report_screen(v, width, fills, remote_fills);
            &&& rows.len() == 4 + v.repos.len() + (if v.remotes.len() == 0 {
                0
            } else {
                2 + v.remotes.len()
            })
            &&& rows[0][1].text == bytes_text(v.unique_size as nat)
            &&& rows[0][3].text == bytes_text(v.consumed_size as nat)
            &&& 0 <= i < v.repos.len() ==> {
                let r = v.repos[i];
                let row = rows[4 + i];
                &&& row[0].text == in_column(r.name, report_name_width(width) as usize as nat)
                &&& row[4].text == " "@ + right_aligned(bytes_text(r.unique_size as nat), 9)
                &&& row[5].text == " n="@ + decimal(r.numcopies as nat)
                &&& r.keys_tracked == 0 ==> row.last().text == " pending"@
                &&& r.keys_tracked > 0 && width >= 88 ==> row.last().text == " ↓"@ + decimal(
                    r.keys_under as nat,
                ) + " ✓"@ + decimal(r.keys_ok as nat) + " ↑"@ + decimal(r.keys_over as nat)
            }
            &&& 0 <= i < v.remotes.len() ==> rows[6 + v.repos.len() + i][4].text == " "@
                + right_aligned(bytes_text(v.remotes[i].1 as nat), 9)
        }),
{
}

/// The dashboard of a repository tells its sizes, the health of its copies, how many keys have
/// too few copies, enough or more, and a row for each drive.
#[verifier::rlimit(40)]
pub proof fn law_dashboard_rows(
    v: DetailView,
    width: usize,
    f: CopyFill,
    fills: Seq<usize>,
    i: int,
)
    ensures
        ({
            let rows = detail_screen(v, width, f, fills);
            &&& rows[0][1].text == bytes_text(v.unique_size as nat)
            &&& rows[0][3].text == bytes_text(v.consumed_size as nat)
            &&& rows[1][1].text == copy_health(v.keys_tracked, v.keys_under)
            &&& rows[2].last().text == "  ↓"@ + decimal(v.keys_under as nat) + "  ✓"@ + decimal(
                v.keys_ok as nat,
            ) + "  ↑"@ + decimal(v.keys_over as nat)
            &&& v.remotes.len() > 0 ==> rows.len() == 5 + v.remotes.len()
            &&& v.remotes.len() == 0 ==> rows.len() == 6 && rows[5][0].text
                == "  no location data yet"@
            &&& 0 <= i < v.remotes.len() ==> {
                let row = rows[5 + i];
                &&& row[0].text == in_column(
                    v.remotes[i].name,
                    detail_name_width(width) as usize as nat,
                )
                &&& row[4].text == " "@ + right_aligned(bytes_text(v.remotes[i].size as nat), 9)
                &&& row[5].text == " "@ + decimal(v.remotes[i].count as nat) + " keys"@
            }
        }),
{
}

/// The row at the bottom tells the status, whether an answer is awaited, the filter, and how
/// many repositories there are.
pub proof fn law_status_row(s: SnapshotView, filter: Text, zoom: bool)
    ensures
        ({
            let end = "  •  "@ + decimal(s.total_repos as nat)
                + " repos  •  / filter  z zoom  ↑↓ nav  → descend  ← back  r refresh  q quit"@;
            let tail = if zoom {
                end + "  [zoomed]"@
            } else {
                end
            };
            let none = Seq::<char>::empty();
            &&& status_text(s, false, none, false, zoom) == s.status + tail
            &&& status_text(s, true, none, false, zoom) == s.status + " [busy]"@ + tail
            &&& filter.len() > 0 ==> status_text(s, false, filter, false, zoom) == s.status
                + "  filter: "@ + filter + tail
            &&& status_text(s, false, filter, true, zoom) == s.status + "  filter: "@ + filter
                + "_"@ + tail
        }),
{
    reveal_strlit("");
    assert(""@ =~= Seq::<char>::empty());
    let end = "  •  "@ + decimal(s.total_repos as nat)
        + " repos  •  / filter  z zoom  ↑↓ nav  → descend  ← back  r refresh  q quit"@;
    let tail = if zoom {
        end + "  [zoomed]"@
    } else {
        end
    };
    let none = Seq::<char>::empty();
    assert(status_text(s, false, none, false, zoom) =~= s.status + tail);
    assert(status_text(s, true, none, false, zoom) =~= s.status + " [busy]"@ + tail);
    if filter.len() > 0 {
        assert(status_text(s, false, filter, false, zoom) =~= s.status + "  filter: "@ + filter
            + tail);
    }
    assert(status_text(s, false, filter, true, zoom) =~= s.status + "  filter: "@ + filter + "_"@
        + tail);
}

/// A dashboard is shown of the selected repository, if one is known by its name; of every other
/// row the details are shown.
pub proof fn law_dashboard_is_of_the_selected(s: SnapshotView)
    ensures
        ({
            let row = s.list[s.selected as int];
            &&& visual_kind(s) == VisualKind::Repo ==> s.selected < s.list.len() && (visual_selected(
                s,
            ) matches Some(v) && s.repo_visuals.contains(v) && row.repo_name == Some(v.name))
            &&& s.selected < s.list.len() && row.kind == "repo"@ && (row.repo_name matches Some(n)
                && exists|i: int| 0 <= i < s.repo_visuals.len() && (#[trigger] s.repo_visuals[i]).name
                == n) ==> visual_kind(s) == VisualKind::Repo
            &&& s.selected >= s.list.len() ==> visual_kind(s) == VisualKind::Plain
            &&& s.selected < s.list.len() && row.kind != "repo"@ && row.kind != "viz"@ && row.kind
                != "report"@ ==> visual_kind(s) == VisualKind::Plain
        }),
{
    reveal_strlit("");
    reveal_strlit("repo");
    reveal_strlit("viz");
    reveal_strlit("report");
    assert(""@.len() == 0 && "repo"@.len() == 4 && "viz"@.len() == 3 && "report"@.len() == 6);
    if s.selected < s.list.len() {
        if let Some(n) = s.list[s.selected as int].repo_name {
            lemma_first_named(s.repo_visuals, n);
        }
    }
}

proof fn lemma_first_named(visuals: Seq<DetailView>, name: Text)
    ensures
        first_named(visuals, name) <= visuals.len(),
        first_named(visuals, name) < visuals.len() ==> visuals[first_named(
            visuals,
            name,
        ) as int].name == name,
        (exists|i: int| 0 <= i < visuals.len() && (#[trigger] visuals[i]).name == name)
            ==> first_named(visuals, name) < visuals.len(),
    decreases visuals.len(),
{
    if visuals.len() > 0 && visuals[0].name != name {
        let rest = visuals.drop_first();
        lemma_first_named(rest, name);
        if exists|i: int| 0 <= i < visuals.len() && (#[trigger] visuals[i]).name == name {
            let i = choose|i: int| 0 <= i < visuals.len() && (#[trigger] visuals[i]).name == name;
            assert(rest[i - 1].name == name);
        }
    }
}

/// A bar takes what the name and the figures leave of the width, but never fewer than eight
/// places nor more than sixty-four; the counts are shown where there is room for them.
pub proof fn law_bar_width(width: int, name_w: int)
    ensures
        8 <= bar_width(width, name_w) <= 64,
        width < 88 && 33 <= width - name_w <= 89 ==> bar_width(width, name_w) == width - name_w
            - 25,
        width >= 88 && 49 <= width - name_w <= 105 ==> bar_width(width, name_w) == width - name_w
            - 41,
{
}

/// A figure stands at the end of its column.
pub proof fn law_figure_in_column(text: Text, width: nat)
    ensures
        text.len() >= width ==> right_aligned(text, width) == text,
        text.len() < width ==> right_aligned(text, width).len() == width && right_aligned(
            text,
            width,
        ).skip(width - text.len()) == text,
{
    reveal_strlit(" ");
    if text.len() < width {
        let n = (width - text.len()) as nat;
        lemma_blocks(" "@, n);
        assert(right_aligned(text, width).skip(n as int) =~= text);
    }
}

/// What can be scrolled is what is shown: the details, or the report.
pub proof fn law_rows_to_scroll(
    s: SnapshotView,
    width: usize,
    fills: Seq<RowFill>,
    remote_fills: Seq<usize>,
)
    ensures
        visual_kind(s) == VisualKind::Plain ==> detail_rows_of(s) == s.details.len(),
        visual_kind(s) == VisualKind::Global ==> (s.visual matches Some(v) && detail_rows_of(s)
            == report_screen(v, width, fills, remote_fills).len()),
{
}

/// The bar of a repository in the report has the color of the health of its copies.
pub proof fn law_report_bars(
    v: ReportView,
    width: usize,
    fills: Seq<RowFill>,
    remote_fills: Seq<usize>,
    i: int,
)
    requires
        0 <= i < v.repos.len(),
    ensures
        ({
            let r = v.repos[i];
            let row = report_screen(v, width, fills, remote_fills)[4 + i];
            let w = bar_width(width as int, report_name_width(width)) as usize as nat;
            let shade = health_shade(copy_health(r.keys_tracked, r.keys_under));
            &&& row[2] == bar(fills[i].filled as nat, w, shade)[0]
            &&& row[3] == bar(fills[i].filled as nat, w, shade)[1]
        }),
        health_shade("ok"@) == Color::Green,
        health_shade("mixed"@) == Color::Yellow,
        health_shade("poor"@) == Color::Red,
        health_shade("unknown"@) == Color::DarkGray,
{
    reveal_strlit("ok");
    reveal_strlit("mixed");
    reveal_strlit("poor");
    reveal_strlit("unknown");
    assert("ok"@.len() == 2 && "mixed"@.len() == 5 && "poor"@.len() == 4 && "unknown"@.len() == 7);
}

} // verus!
