//! The diffing terminal dashboard as a state machine.
//!
//! One consumer task owns a [`Dashboard`] and feeds it every [`Message`] in
//! arrival order; [`Dashboard::handle`] returns the bytes to write to the
//! terminal, or nothing when neither new raw lines nor a changed stats
//! block exist — the write is skipped entirely then, which is what keeps
//! the display flicker-free.

use crate::Message;
use crate::collections::GroupMap;
use crate::collections::GroupView;
use crate::collections::codes_view;
use crate::collections::groups_account;
use crate::collections::groups_get_or_create;
use crate::collections::max_name_len;
use crate::collections::row_ticked;
use crate::collections::rows_has_code;
use crate::collections::rows_sorted;
use crate::collections::lex_lt;
use crate::collections::lemma_lex_lt_irrefl;
use crate::collections::sat_inc;
use crate::collections::StatusView;
use crate::parsing::code_color_spec;
use crate::parsing::opt_view;
use crate::parsing::parse_line_spec;
use crate::parsing::parse_nginx_line;
use crate::parsing::rendered_text;
use crate::shown_spec;
use crate::filter_views;
use crate::passes_filter;
use crate::speedometer::Measurement;
use crate::speedometer::sum_durations;
use crate::speedometer::sum_msgs;
use crate::terminal;
use crate::textfmt::dec_spec;
use crate::textfmt::fmt_rate;
use crate::textfmt::rate_text;
use crate::textfmt::spaces;
use crate::textfmt::spaces_spec;
use crate::textfmt::u64_to_dec;
use vstd::prelude::*;

verus! {

/// The views of the queue of raw lines awaiting display: each entry is the
/// line's text and its status bucket, if it had one.
pub open spec fn queue_views(q: Seq<(String, Option<String>)>) -> Seq<(Seq<char>, Option<Seq<
    char,
>>)> {
    q.map_values(|e: (String, Option<String>)| (e.0@, opt_view(e.1)))
}

/// A line cut to the effective terminal width; a width of zero means
/// unlimited.
pub open spec fn trunc_spec(text: Seq<char>, width: int) -> Seq<char> {
    if width != 0 && text.len() > width {
        text.take(width)
    } else {
        text
    }
}

/// One queued raw line as displayed: unclassified lines are wrapped in
/// orange, and the line itself is the colored rendering of its parse.
pub open spec fn entry_text(e: (Seq<char>, Option<Seq<char>>), width: int) -> Seq<char> {
    let body = rendered_text(parse_line_spec(trunc_spec(e.0, width)));
    if e.1 is None {
        terminal::orange_seq() + body + terminal::reset_seq() + seq!['\n']
    } else {
        body + seq!['\n']
    }
}

/// All queued raw lines as displayed, in arrival order.
pub open spec fn flush_lines_text(q: Seq<(Seq<char>, Option<Seq<char>>)>, width: int) -> Seq<
    char,
>
    decreases q.len(),
{
    if q.len() == 0 {
        Seq::<char>::empty()
    } else {
        entry_text(q[0], width) + flush_lines_text(q.drop_first(), width)
    }
}

/// The share of lines kept for display since the last flush, in percent.
pub open spec fn samplerate_spec(kept: int, skipped: int) -> int {
    if skipped == 0 {
        100
    } else {
        100 * kept / (skipped + kept)
    }
}

/// The footer under a flush of raw lines.
pub open spec fn footer_text(rate: int) -> Seq<char> {
    seq!['-', '-', ' ', 'O', 'u', 't', 'p', 'u', 't', ' ', 's', 'a', 'm', 'p', 'l', 'e', 'd',
        ' ', 'a', 't', ' '] + dec_spec(rate) + seq!['%', '\n']
}

/// Everything a raw-line flush writes: the lines and the sampling footer,
/// or nothing at all when no lines are pending.
pub open spec fn flush_text(q: Seq<(Seq<char>, Option<Seq<char>>)>, width: int, skipped: int)
    -> Seq<char> {
    if q.len() == 0 {
        Seq::<char>::empty()
    } else {
        flush_lines_text(q, width) + footer_text(samplerate_spec(q.len() as int, skipped))
    }
}

/// The group names of a group sequence.
pub open spec fn view_names(gs: Seq<GroupView>) -> Seq<Seq<char>> {
    gs.map_values(|g: GroupView| g.name)
}

/// The tag column width: the longest group name, but at least 8.
pub open spec fn maxtag_spec(gs: Seq<GroupView>) -> int {
    if max_name_len(view_names(gs)) > 8 {
        max_name_len(view_names(gs))
    } else {
        8
    }
}

/// A group's display name: the shared prefix and suffix stripped and the
/// rest padded so all groups align; a name wholly swallowed by prefix and
/// suffix shows as `@`.
pub open spec fn padded_tag_spec(name: Seq<char>, plen: int, slen: int, maxtag: int) -> Seq<
    char,
> {
    if name.len() <= plen + slen {
        seq!['@'] + spaces_spec(maxtag - plen - slen - 1)
    } else {
        name.subrange(plen, name.len() - slen) + spaces_spec(maxtag - name.len())
    }
}

/// Index of the row holding a code.
pub open spec fn row_index(rows: Seq<StatusView>, code: Seq<char>) -> int
    decreases rows.len(),
{
    if rows.len() == 0 {
        0
    } else if rows[0].code == code {
        0
    } else {
        1 + row_index(rows.drop_first(), code)
    }
}

/// Among sorted rows, any row holding the code is the one `row_index`
/// finds.
pub proof fn lemma_row_index(rows: Seq<StatusView>, code: Seq<char>, q: int)
    requires
        rows_sorted(rows),
        0 <= q < rows.len(),
        rows[q].code == code,
    ensures
        row_index(rows, code) == q,
    decreases rows.len(),
{
    if q > 0 {
        if rows[0].code == code {
            lemma_lex_lt_irrefl(code);
            assert(lex_lt(rows[0].code, rows[q].code));
        }
        lemma_row_index(rows.drop_first(), code, q - 1);
    }
}

/// A status row's speed: the window's message total over its duration
/// total, or an exact zero for an empty window.
pub open spec fn window_rate(w: Seq<Measurement>) -> (int, int) {
    if w.len() == 0 {
        (0int, 1int)
    } else {
        (1000 * sum_msgs(w) as int, sum_durations(w) as int)
    }
}

/// One aligned cell: the rate and the bracketed colored code where the
/// group has seen that code, and a width-matched blank otherwise.
pub open spec fn cell_text(rows: Seq<StatusView>, c: Seq<char>) -> Seq<char> {
    if rows_has_code(rows, c) {
        let w = rows[row_index(rows, c)].window;
        rate_text(window_rate(w).0, window_rate(w).1) + seq![' ', '['] + code_color_spec(c).0
            + c + code_color_spec(c).1 + seq![']', ' ']
    } else {
        spaces_spec(11 + c.len() as int)
    }
}

/// All cells of one group, one per code in the global sorted code list.
pub open spec fn cells_text(rows: Seq<StatusView>, codes: Seq<Seq<char>>) -> Seq<char>
    decreases codes.len(),
{
    if codes.len() == 0 {
        Seq::<char>::empty()
    } else {
        cell_text(rows, codes[0]) + cells_text(rows, codes.drop_first())
    }
}

/// One group's stats line.
pub open spec fn group_line_text(g: GroupView, plen: int, slen: int, maxtag: int, codes: Seq<
    Seq<char>,
>) -> Seq<char> {
    seq!['-', '-', ' '] + padded_tag_spec(g.name, plen, slen, maxtag) + seq![' '] + cells_text(
        g.rows,
        codes,
    ) + seq!['\n']
}

/// The stats lines of all groups, in registration order.
pub open spec fn groups_lines_text(gs: Seq<GroupView>, plen: int, slen: int, maxtag: int,
    codes: Seq<Seq<char>>) -> Seq<char>
    decreases gs.len(),
{
    if gs.len() == 0 {
        Seq::<char>::empty()
    } else {
        group_line_text(gs[0], plen, slen, maxtag, codes) + groups_lines_text(
            gs.drop_first(),
            plen,
            slen,
            maxtag,
            codes,
        )
    }
}

/// Text with its trailing spaces and newlines removed.
pub open spec fn trim_ws(s: Seq<char>) -> Seq<char>
    decreases s.len(),
{
    if s.len() > 0 && (s.last() == ' ' || s.last() == '\n') {
        trim_ws(s.drop_last())
    } else {
        s
    }
}

/// The whole stats block as written to the terminal.
pub open spec fn stats_text_spec(gs: Seq<GroupView>, prefix: Seq<char>, suffix: Seq<char>,
    codes: Seq<Seq<char>>) -> Seq<char> {
    trim_ws(
        groups_lines_text(
            gs,
            prefix.len() as int,
            suffix.len() as int,
            maxtag_spec(gs),
            codes,
        ),
    )
}

/// How many newlines the text holds: what the next render must erase.
pub open spec fn count_newlines(s: Seq<char>) -> int
    decreases s.len(),
{
    if s.len() == 0 {
        0
    } else {
        count_newlines(s.drop_last()) + if s.last() == '\n' {
            1int
        } else {
            0int
        }
    }
}

/// The cursor-repositioning preamble: return to column 0 and erase the
/// previously written lines. Erasing zero lines must still reposition to
/// the column without moving up, since a move-up of zero is not a no-op on
/// every terminal.
pub open spec fn wiper_text(w: int) -> Seq<char> {
    if w == 0 {
        seq!['\r'] + terminal::csi_seq() + seq!['J']
    } else {
        seq!['\r'] + terminal::csi_seq() + dec_spec(w) + seq!['A'] + terminal::csi_seq()
            + seq!['J']
    }
}

/// One sample tick happened to every row of every group, and nothing else
/// moved.
pub open spec fn groups_ticked(b: Seq<GroupView>, a: Seq<GroupView>) -> bool {
    &&& a.len() == b.len()
    &&& forall|i: int| 0 <= i < b.len() ==> {
        &&& (#[trigger] a[i]).name == b[i].name
        &&& a[i].rows.len() == b[i].rows.len()
        &&& forall|j: int| 0 <= j < b[i].rows.len() ==> row_ticked(
            b[i].rows[j],
            #[trigger] a[i].rows[j],
        )
    }
}

/// How many raw lines the display can hold: the target height minus one
/// row per group and a gutter of two.
pub open spec fn queue_capacity(height: u16, n_groups: int) -> int {
    if height > n_groups + 2 {
        height - n_groups - 2
    } else {
        0
    }
}

/// The raw-line queue after one line arrives: a hidden line changes
/// nothing; a shown line is appended, evicting the oldest entry (and
/// counting it skipped) when the queue is at capacity.
pub open spec fn queue_after_line(q: Seq<(Seq<char>, Option<Seq<char>>)>, cap: int,
    shown: bool, entry: (Seq<char>, Option<Seq<char>>)) -> Seq<(Seq<char>, Option<Seq<char>>)> {
    if !shown {
        q
    } else if q.len() >= cap {
        (if q.len() > 0 {
            q.drop_first()
        } else {
            q
        }).push(entry)
    } else {
        q.push(entry)
    }
}

/// The skipped-line count after one line arrives.
pub open spec fn skipped_after_line(skipped: u32, qlen: int, cap: int, shown: bool) -> u32 {
    if shown && qlen >= cap {
        sat_inc(skipped)
    } else {
        skipped
    }
}

/// All display and aggregation state of the dashboard, owned by the single
/// consumer task.
pub struct Dashboard {
    /// Raw lines awaiting the next flush, oldest first.
    pub pending_lines: Vec<(String, Option<String>)>,
    /// Lines evicted from the queue since the last flush.
    pub lines_skipped: u32,
    /// Per-group, per-status aggregation.
    pub groups: GroupMap,
    /// Effective terminal width; zero means unlimited.
    pub cut_width: u16,
    /// The display height the renderer aims for.
    pub target_height: u16,
    /// Status-code prefixes restricting which raw lines are displayed.
    pub filters: Vec<String>,
    /// The stats block as last written, for diffing.
    pub lastprinted_stats: String,
    /// How many terminal lines the next write must erase.
    pub lines_to_wipe: usize,
}

/// What handling a width change does: only the effective width moves.
pub open spec fn winch_post(pre: Dashboard, post: Dashboard, w: u16) -> bool {
    &&& post.cut_width == w
    &&& post.pending_lines == pre.pending_lines
    &&& post.lines_skipped == pre.lines_skipped
    &&& post.groups == pre.groups
    &&& post.target_height == pre.target_height
    &&& post.filters == pre.filters
    &&& post.lastprinted_stats == pre.lastprinted_stats
    &&& post.lines_to_wipe == pre.lines_to_wipe
}

/// What handling a group registration does: the group appears (created
/// empty if new) and nothing else moves.
pub open spec fn register_post(pre: Dashboard, post: Dashboard, tag: Seq<char>) -> bool {
    &&& post.groups.groups() == groups_get_or_create(pre.groups.groups(), tag).0
    &&& post.groups.global_statuscodes == pre.groups.global_statuscodes
    &&& post.pending_lines == pre.pending_lines
    &&& post.lines_skipped == pre.lines_skipped
    &&& post.cut_width == pre.cut_width
    &&& post.target_height == pre.target_height
    &&& post.filters == pre.filters
    &&& post.lastprinted_stats == pre.lastprinted_stats
    &&& post.lines_to_wipe == pre.lines_to_wipe
}

/// What handling one log line does: the line is counted against its group
/// and status bucket (when it has one), and queued for raw display unless
/// the filters hide it, evicting the oldest entry when the queue is full.
pub open spec fn line_post(pre: Dashboard, post: Dashboard, text: Seq<char>, group: Seq<char>,
    leftright: Option<Seq<char>>, statuscode: Option<Seq<char>>) -> bool {
    let shown = shown_spec(filter_views(pre.filters@), statuscode);
    let cap = queue_capacity(pre.target_height, pre.groups.groups().len() as int);
    &&& (match leftright {
        Some(lr) => post.groups.groups() == groups_account(pre.groups.groups(), group, lr),
        None => post.groups == pre.groups,
    })
    &&& queue_views(post.pending_lines@) == queue_after_line(
        queue_views(pre.pending_lines@),
        cap,
        shown,
        (text, leftright),
    )
    &&& post.lines_skipped == skipped_after_line(
        pre.lines_skipped,
        pre.pending_lines@.len() as int,
        cap,
        shown,
    )
    &&& post.cut_width == pre.cut_width
    &&& post.target_height == pre.target_height
    &&& post.filters == pre.filters
    &&& post.lastprinted_stats == pre.lastprinted_stats
    &&& post.lines_to_wipe == pre.lines_to_wipe
}

/// What a render trigger does: pending raw lines are flushed when asked
/// for, every estimator takes a sample tick, and the terminal is written
/// only if there are raw lines to flush or the stats block changed —
/// otherwise nothing is emitted at all.
pub open spec fn print_post(pre: Dashboard, post: Dashboard, inc: bool, out: Option<String>)
    -> bool {
    let flushing = inc && pre.pending_lines@.len() > 0;
    let lines_txt = if flushing {
        flush_text(
            queue_views(pre.pending_lines@),
            pre.cut_width as int,
            pre.lines_skipped as int,
        )
    } else {
        Seq::<char>::empty()
    };
    let stats_txt = stats_text_spec(
        post.groups.groups(),
        post.groups.shared_prefix@,
        post.groups.shared_suffix@,
        codes_view(post.groups.global_statuscodes@),
    );
    &&& groups_ticked(pre.groups.groups(), post.groups.groups())
    &&& post.groups.shared_prefix == pre.groups.shared_prefix
    &&& post.groups.shared_suffix == pre.groups.shared_suffix
    &&& post.groups.global_statuscodes == pre.groups.global_statuscodes
    &&& post.cut_width == pre.cut_width
    &&& post.target_height == pre.target_height
    &&& post.filters == pre.filters
    &&& (if flushing {
        post.pending_lines@.len() == 0 && post.lines_skipped == 0
    } else {
        post.pending_lines == pre.pending_lines && post.lines_skipped == pre.lines_skipped
    })
    &&& (if lines_txt.len() == 0 && stats_txt == pre.lastprinted_stats@ {
        &&& out is None
        &&& post.lastprinted_stats == pre.lastprinted_stats
        &&& post.lines_to_wipe == pre.lines_to_wipe
    } else {
        let wip = if inc {
            if pre.lines_to_wipe < usize::MAX {
                pre.lines_to_wipe + 1
            } else {
                usize::MAX as int
            }
        } else {
            pre.lines_to_wipe as int
        };
        &&& out is Some
        &&& out.unwrap()@ == wiper_text(wip) + lines_txt + stats_txt
        &&& post.lastprinted_stats@ == stats_txt
        &&& post.lines_to_wipe == count_newlines(stats_txt)
    })
}

} // verus!

verus! {

/// Appending one entry extends the flush text by that entry's text.
proof fn lemma_flush_lines_snoc(q: Seq<(Seq<char>, Option<Seq<char>>)>, e: (Seq<char>, Option<
    Seq<char>,
>), width: int)
    ensures
        flush_lines_text(q.push(e), width) =~= flush_lines_text(q, width) + entry_text(
            e,
            width,
        ),
    decreases q.len(),
{
    if q.len() == 0 {
        assert(q.push(e)[0] == e);
        assert(q.push(e).drop_first() =~= Seq::<(Seq<char>, Option<Seq<char>>)>::empty());
        assert(q.push(e).len() == 1);
        assert(flush_lines_text(q.push(e), width) == entry_text(q.push(e)[0], width)
            + flush_lines_text(q.push(e).drop_first(), width));
        assert(flush_lines_text(q.push(e).drop_first(), width) =~= Seq::<char>::empty());
        assert(flush_lines_text(q, width) =~= Seq::<char>::empty());
    } else {
        assert(q.push(e)[0] == q[0]);
        assert(q.push(e).drop_first() =~= q.drop_first().push(e));
        lemma_flush_lines_snoc(q.drop_first(), e, width);
        assert(entry_text(q[0], width) + (flush_lines_text(q.drop_first(), width) + entry_text(
            e,
            width,
        )) =~= (entry_text(q[0], width) + flush_lines_text(q.drop_first(), width)) + entry_text(
            e,
            width,
        ));
    }
}

/// Appending one code extends the cell row by that code's cell.
proof fn lemma_cells_snoc(rows: Seq<StatusView>, codes: Seq<Seq<char>>, c: Seq<char>)
    ensures
        cells_text(rows, codes.push(c)) =~= cells_text(rows, codes) + cell_text(rows, c),
    decreases codes.len(),
{
    if codes.len() == 0 {
        assert(codes.push(c)[0] == c);
        assert(codes.push(c).drop_first() =~= Seq::<Seq<char>>::empty());
        assert(cells_text(rows, codes.push(c)) == cell_text(rows, codes.push(c)[0]) + cells_text(
            rows,
            codes.push(c).drop_first(),
        ));
        assert(cells_text(rows, codes.push(c).drop_first()) =~= Seq::<char>::empty());
        assert(cells_text(rows, codes) =~= Seq::<char>::empty());
    } else {
        assert(codes.push(c)[0] == codes[0]);
        assert(codes.push(c).drop_first() =~= codes.drop_first().push(c));
        lemma_cells_snoc(rows, codes.drop_first(), c);
        assert(cell_text(rows, codes[0]) + (cells_text(rows, codes.drop_first()) + cell_text(
            rows,
            c,
        )) =~= (cell_text(rows, codes[0]) + cells_text(rows, codes.drop_first())) + cell_text(
            rows,
            c,
        ));
    }
}

/// Appending one group extends the stats lines by that group's line.
proof fn lemma_groups_lines_snoc(gs: Seq<GroupView>, g: GroupView, plen: int, slen: int,
    maxtag: int, codes: Seq<Seq<char>>)
    ensures
        groups_lines_text(gs.push(g), plen, slen, maxtag, codes) =~= groups_lines_text(
            gs,
            plen,
            slen,
            maxtag,
            codes,
        ) + group_line_text(g, plen, slen, maxtag, codes),
    decreases gs.len(),
{
    if gs.len() == 0 {
        assert(gs.push(g)[0] == g);
        assert(gs.push(g).drop_first() =~= Seq::<GroupView>::empty());
        assert(groups_lines_text(gs.push(g), plen, slen, maxtag, codes) == group_line_text(
            gs.push(g)[0],
            plen,
            slen,
            maxtag,
            codes,
        ) + groups_lines_text(gs.push(g).drop_first(), plen, slen, maxtag, codes));
        assert(groups_lines_text(gs.push(g).drop_first(), plen, slen, maxtag, codes) =~= Seq::<
            char,
        >::empty());
        assert(groups_lines_text(gs, plen, slen, maxtag, codes) =~= Seq::<char>::empty());
    } else {
        assert(gs.push(g)[0] == gs[0]);
        assert(gs.push(g).drop_first() =~= gs.drop_first().push(g));
        lemma_groups_lines_snoc(gs.drop_first(), g, plen, slen, maxtag, codes);
        assert(group_line_text(gs[0], plen, slen, maxtag, codes) + (groups_lines_text(
            gs.drop_first(),
            plen,
            slen,
            maxtag,
            codes,
        ) + group_line_text(g, plen, slen, maxtag, codes)) =~= (group_line_text(
            gs[0],
            plen,
            slen,
            maxtag,
            codes,
        ) + groups_lines_text(gs.drop_first(), plen, slen, maxtag, codes)) + group_line_text(
            g,
            plen,
            slen,
            maxtag,
            codes,
        ));
    }
}

/// Every name is at most as long as the longest.
proof fn lemma_max_name_len_ge(names: Seq<Seq<char>>, i: int)
    requires
        0 <= i < names.len(),
    ensures
        names[i].len() <= max_name_len(names),
    decreases names.len(),
{
    if i < names.len() - 1 {
        assert(names.drop_last()[i] == names[i]);
        lemma_max_name_len_ge(names.drop_last(), i);
    }
}

/// Count the newlines in a text.
fn count_nl(s: &String) -> (r: usize)
    ensures
        r as int == count_newlines(s@),
{
    let n = s.as_str().unicode_len();
    let mut cnt: usize = 0;
    let mut i: usize = 0;
    proof {
        assert(s@.take(0) =~= Seq::<char>::empty());
    }
    while i < n
        invariant
            i <= n,
            n == s@.len(),
            cnt <= i,
            cnt as int == count_newlines(s@.take(i as int)),
        decreases n - i,
    {
        proof {
            assert(s@.take(i + 1).drop_last() =~= s@.take(i as int));
            assert(s@.take(i + 1).last() == s@[i as int]);
        }
        if s.as_str().get_char(i) == '\n' {
            cnt = cnt + 1;
        }
        i = i + 1;
    }
    proof {
        assert(s@.take(n as int) =~= s@);
    }
    cnt
}

} // verus!

verus! {

/// Build the stats block for the current groups: one aligned line per
/// group, one cell per globally known status code, trailing whitespace
/// trimmed.
fn build_stats(groups: &GroupMap) -> (r: String)
    requires
        groups.wf(),
    ensures
        r@ == stats_text_spec(
            groups.groups(),
            groups.shared_prefix@,
            groups.shared_suffix@,
            codes_view(groups.global_statuscodes@),
        ),
{
    let ghost gs = groups.groups();
    let ghost codes = codes_view(groups.global_statuscodes@);
    let ng = groups.stats.len();

    let mut maxn: usize = 0;
    let mut t: usize = 0;
    proof {
        assert(view_names(gs).take(0) =~= Seq::<Seq<char>>::empty());
    }
    while t < ng
        invariant
            t <= ng,
            ng == groups.stats@.len(),
            gs == groups.groups(),
            maxn as int == max_name_len(view_names(gs).take(t as int)),
        decreases ng - t,
    {
        proof {
            assert(view_names(gs).take(t + 1).drop_last() =~= view_names(gs).take(t as int));
            assert(view_names(gs).take(t + 1).last() == view_names(gs)[t as int]);
            assert(view_names(gs)[t as int] == gs[t as int].name);
            assert(gs[t as int] == groups.stats@[t as int]@);
        }
        let lent = groups.stats[t].group.as_str().unicode_len();
        if lent > maxn {
            maxn = lent;
        }
        t = t + 1;
    }
    proof {
        assert(view_names(gs).take(ng as int) =~= view_names(gs));
    }
    let maxtag: usize = if maxn > 8 {
        maxn
    } else {
        8
    };
    let plen = groups.shared_prefix.as_str().unicode_len();
    let slen = groups.shared_suffix.as_str().unicode_len();

    let mut text = String::new();
    proof {
        reveal_strlit("-- ");
        reveal_strlit("@");
        reveal_strlit(" ");
        reveal_strlit(" [");
        reveal_strlit("] ");
        reveal_strlit("\n");
        assert(gs.take(0) =~= Seq::<GroupView>::empty());
        assert(text@ =~= groups_lines_text(gs.take(0), plen as int, slen as int,
            maxtag as int, codes));
    }
    let mut gi: usize = 0;
    while gi < ng
        invariant
            gi <= ng,
            ng == groups.stats@.len(),
            gs == groups.groups(),
            codes == codes_view(groups.global_statuscodes@),
            groups.wf(),
            maxtag as int == maxtag_spec(gs),
            maxn as int == max_name_len(view_names(gs)),
            maxtag >= 8,
            maxn <= maxtag,
            plen == groups.shared_prefix@.len(),
            slen == groups.shared_suffix@.len(),
            text@ == groups_lines_text(gs.take(gi as int), plen as int, slen as int,
                maxtag as int, codes),
        decreases ng - gi,
    {
        let ghost g_view = gs[gi as int];
        proof {
            reveal_strlit("-- ");
            reveal_strlit("@");
            reveal_strlit(" ");
            reveal_strlit("\n");
            assert(g_view == groups.stats@[gi as int]@);
            assert(groups.stats@[gi as int].wf());
        }
        let mut line = String::from_str("-- ");
        proof {
            assert("-- "@ =~= seq!['-', '-', ' ']);
        }

        let namelen = groups.stats[gi].group.as_str().unicode_len();
        proof {
            lemma_max_name_len_ge(view_names(gs), gi as int);
            assert(view_names(gs)[gi as int] == g_view.name);
        }
        if namelen as u128 <= plen as u128 + slen as u128 {
            line.append("@");
            proof {
                assert("@"@ =~= seq!['@']);
            }
            let room: i128 = maxtag as i128 - plen as i128 - slen as i128 - 1;
            let pad: usize = if room > 0 {
                room as usize
            } else {
                0
            };
            let sp = spaces(pad);
            line.append(sp.as_str());
            proof {
                assert(sp@ =~= spaces_spec(maxtag as int - plen as int - slen as int - 1));
                assert(line@ =~= seq!['-', '-', ' '] + padded_tag_spec(g_view.name, plen as int,
                    slen as int, maxtag as int));
            }
        } else {
            let stripped = groups.stats[gi].group.as_str().substring_char(plen,
                namelen - slen);
            line.append(stripped);
            let sp = spaces(maxtag - namelen);
            line.append(sp.as_str());
            proof {
                assert(line@ =~= seq!['-', '-', ' '] + padded_tag_spec(g_view.name, plen as int,
                    slen as int, maxtag as int));
            }
        }
        line.append(" ");
        proof {
            assert(" "@ =~= seq![' ']);
            assert(codes.take(0) =~= Seq::<Seq<char>>::empty());
            assert(line@ =~= seq!['-', '-', ' '] + padded_tag_spec(g_view.name, plen as int,
                slen as int, maxtag as int) + seq![' '] + cells_text(g_view.rows,
                codes.take(0)));
        }

        let nc = groups.global_statuscodes.len();
        let mut ci: usize = 0;
        while ci < nc
            invariant
                ci <= nc,
                nc == groups.global_statuscodes@.len(),
                gs == groups.groups(),
                codes == codes_view(groups.global_statuscodes@),
                groups.wf(),
                gi < groups.stats@.len(),
                g_view == groups.stats@[gi as int]@,
                line@ == seq!['-', '-', ' '] + padded_tag_spec(g_view.name, plen as int,
                    slen as int, maxtag as int) + seq![' '] + cells_text(g_view.rows,
                    codes.take(ci as int)),
            decreases nc - ci,
        {
            proof {
                reveal_strlit(" [");
                reveal_strlit("] ");
                assert(codes[ci as int] == groups.global_statuscodes@[ci as int]@);
                assert(codes.take(ci + 1) =~= codes.take(ci as int).push(codes[ci as int]));
                lemma_cells_snoc(g_view.rows, codes.take(ci as int), codes[ci as int]);
            }
            let code_ref = &groups.global_statuscodes[ci];
            let g_ref = &groups.stats[gi];
            match g_ref.find_row(code_ref) {
                Some(q) => {
                    proof {
                        assert(groups.stats@[gi as int].wf());
                        lemma_row_index(g_view.rows, code_ref@, q as int);
                        assert(g_view.rows[q as int] == g_ref.stats@[q as int]@);
                        assert(g_ref.stats@[q as int].wf());
                    }
                    let rate = g_ref.row_speed(q);
                    let cellr = fmt_rate(rate.num, rate.den);
                    line.append(cellr.as_str());
                    line.append(" [");
                    let (cstart, cend) = crate::parsing::code2color(code_ref.as_str());
                    line.append(cstart);
                    line.append(code_ref.as_str());
                    line.append(cend);
                    line.append("] ");
                    proof {
                        assert(" ["@ =~= seq![' ', '[']);
                        assert("] "@ =~= seq![']', ' ']);
                        assert(cellr@ == rate_text(window_rate(g_view.rows[q as int].window).0,
                            window_rate(g_view.rows[q as int].window).1));
                        assert(cell_text(g_view.rows, codes[ci as int]) =~= cellr@ + seq![' ',
                            '['] + code_color_spec(codes[ci as int]).0 + codes[ci as int]
                            + code_color_spec(codes[ci as int]).1 + seq![']', ' ']);
                        assert(line@ =~= seq!['-', '-', ' '] + padded_tag_spec(g_view.name,
                            plen as int, slen as int, maxtag as int) + seq![' '] + cells_text(
                            g_view.rows, codes.take(ci + 1)));
                    }
                },
                None => {
                    let b1 = spaces(11);
                    line.append(b1.as_str());
                    let b2 = spaces(code_ref.as_str().unicode_len());
                    line.append(b2.as_str());
                    proof {
                        assert(b1@ + b2@ =~= spaces_spec(11 + codes[ci as int].len() as int));
                        assert(cell_text(g_view.rows, codes[ci as int]) =~= b1@ + b2@);
                        assert(line@ =~= seq!['-', '-', ' '] + padded_tag_spec(g_view.name,
                            plen as int, slen as int, maxtag as int) + seq![' '] + cells_text(
                            g_view.rows, codes.take(ci + 1)));
                    }
                },
            }
            ci = ci + 1;
        }
        line.append("\n");
        text.append(line.as_str());
        proof {
            assert("\n"@ =~= seq!['\n']);
            assert(codes.take(nc as int) =~= codes);
            assert(line@ =~= group_line_text(g_view, plen as int, slen as int, maxtag as int,
                codes));
            assert(gs.take(gi + 1) =~= gs.take(gi as int).push(g_view));
            lemma_groups_lines_snoc(gs.take(gi as int), g_view, plen as int, slen as int,
                maxtag as int, codes);
        }
        gi = gi + 1;
    }
    proof {
        assert(gs.take(ng as int) =~= gs);
    }

    let total = text.as_str().unicode_len();
    let mut end = total;
    proof {
        assert(text@.take(total as int) =~= text@);
    }
    let mut trimming = true;
    while trimming
        invariant
            end <= total,
            total == text@.len(),
            trim_ws(text@) == trim_ws(text@.take(end as int)),
            !trimming ==> trim_ws(text@.take(end as int)) == text@.take(end as int),
        decreases end, (if trimming { 1int } else { 0int }),
    {
        if end == 0 {
            trimming = false;
        } else {
            let c = text.as_str().get_char(end - 1);
            if c == ' ' || c == '\n' {
                proof {
                    assert(text@.take(end as int).last() == text@[end - 1]);
                    assert(text@.take(end as int).drop_last() =~= text@.take(end - 1));
                }
                end = end - 1;
            } else {
                proof {
                    assert(text@.take(end as int).last() == text@[end - 1]);
                }
                trimming = false;
            }
        }
    }
    String::from_str(text.as_str().substring_char(0, end))
}

} // verus!

verus! {

impl Dashboard {
    /// The aggregation state is well formed.
    pub open spec fn wf(&self) -> bool {
        self.groups.wf()
    }

    /// A dashboard with nothing seen and nothing printed yet.
    pub fn new(target_height: u16, cut_width: u16, filters: Vec<String>) -> (r: Self)
        ensures
            r.wf(),
            r.pending_lines@ == Seq::<(String, Option<String>)>::empty(),
            r.lines_skipped == 0,
            r.groups.groups() == Seq::<GroupView>::empty(),
            r.groups.global_statuscodes@ == Seq::<String>::empty(),
            r.cut_width == cut_width,
            r.target_height == target_height,
            r.filters == filters,
            r.lastprinted_stats@ == Seq::<char>::empty(),
            r.lines_to_wipe == 0,
    {
        Dashboard {
            pending_lines: Vec::new(),
            lines_skipped: 0,
            groups: GroupMap::new(),
            cut_width,
            target_height,
            filters,
            lastprinted_stats: String::new(),
            lines_to_wipe: 0,
        }
    }

    /// Process one message to completion: update the aggregation and
    /// display state, and return the bytes to write to the terminal, if
    /// this message warrants a write at all.
    pub fn handle(&mut self, msg: Message) -> (out: Option<String>)
        requires
            old(self).wf(),
        ensures
            final(self).wf(),
            match msg {
                Message::WinCh(w) => winch_post(*old(self), *final(self), w) && out is None,
                Message::RegisterGroup(tag) => register_post(*old(self), *final(self), tag@)
                    && out is None,
                Message::Line { text, updowngroup, leftrightgroup, statuscode } => line_post(
                    *old(self),
                    *final(self),
                    text@,
                    updowngroup@,
                    opt_view(leftrightgroup),
                    opt_view(statuscode),
                ) && out is None,
                Message::Print { include_lines } => print_post(
                    *old(self),
                    *final(self),
                    include_lines,
                    out,
                ),
            },
    {
        match msg {
            Message::WinCh(w) => {
                self.cut_width = w;
                None
            },
            Message::RegisterGroup(tag) => {
                let _ = self.groups.get_or_create(tag);
                None
            },
            Message::Line { text, updowngroup, leftrightgroup, statuscode } => {
                let ghost tv = text@;
                let ghost lrv = opt_view(leftrightgroup);
                let ghost preq = queue_views(self.pending_lines@);
                let ngroups = self.groups.len();
                let th = self.target_height as usize;
                let cap: usize = if th as u128 > ngroups as u128 + 2 {
                    th - ngroups - 2
                } else {
                    0
                };
                proof {
                    assert(cap as int == queue_capacity(
                        self.target_height,
                        self.groups.groups().len() as int,
                    ));
                }
                if leftrightgroup.is_some() {
                    let lr2 = leftrightgroup.as_ref().unwrap().clone();
                    self.groups.account(updowngroup, lr2);
                    proof {
                        assert(lrv == Some(lr2@));
                    }
                }
                let shown = passes_filter(&self.filters, &statuscode);
                if shown {
                    if self.pending_lines.len() >= cap {
                        if self.pending_lines.len() > 0 {
                            let _ = self.pending_lines.remove(0);
                        }
                        self.lines_skipped = if self.lines_skipped < u32::MAX {
                            self.lines_skipped + 1
                        } else {
                            u32::MAX
                        };
                    }
                    self.pending_lines.push((text, leftrightgroup));
                }
                proof {
                    assert(queue_views(self.pending_lines@) =~= queue_after_line(
                        preq,
                        cap as int,
                        shown,
                        (tv, lrv),
                    ));
                }
                None
            },
            Message::Print { include_lines } => self.print_step(include_lines),
        }
    }

    /// One render cycle: flush raw lines when asked, take a sample tick,
    /// rebuild the stats block, and write only when something changed.
    fn print_step(&mut self, include_lines: bool) -> (out: Option<String>)
        requires
            old(self).wf(),
        ensures
            final(self).wf(),
            print_post(*old(self), *final(self), include_lines, out),
    {
        let ghost preq = queue_views(old(self).pending_lines@);
        let ghost width = self.cut_width as int;
        let mut lines_txt = String::new();
        let flushing = include_lines && self.pending_lines.len() > 0;
        if flushing {
            let kept: u64 = self.pending_lines.len() as u64;
            let skip: u64 = self.lines_skipped as u64;
            let rate_val: u64 = if skip == 0 {
                100
            } else {
                let v: u128 = (100u128 * kept as u128) / (skip as u128 + kept as u128);
                proof {
                    assert(v <= 100) by (nonlinear_arith)
                        requires
                            v == (100 * kept as int) / (skip as int + kept as int),
                            skip >= 1,
                            kept >= 1,
                    ;
                }
                v as u64
            };
            proof {
                assert(rate_val as int == samplerate_spec(kept as int, skip as int));
            }
            let n = self.pending_lines.len();
            let mut i: usize = 0;
            proof {
                assert(preq.take(0) =~= Seq::<(Seq<char>, Option<Seq<char>>)>::empty());
            }
            while i < n
                invariant
                    i <= n,
                    *self == *old(self),
                    n == self.pending_lines@.len(),
                    preq == queue_views(self.pending_lines@),
                    width == self.cut_width as int,
                    lines_txt@ == flush_lines_text(preq.take(i as int), width),
                decreases n - i,
            {
                let ghost e = preq[i as int];
                proof {
                    reveal_strlit("\n");
                    assert(e == (self.pending_lines@[i as int].0@, opt_view(
                        self.pending_lines@[i as int].1,
                    )));
                }
                let tlen = self.pending_lines[i].0.as_str().unicode_len();
                let w = self.cut_width as usize;
                let trimmed: &str = if w != 0 && tlen > w {
                    self.pending_lines[i].0.as_str().substring_char(0, w)
                } else {
                    self.pending_lines[i].0.as_str()
                };
                proof {
                    assert(trimmed@ =~= trunc_spec(e.0, width));
                }
                let parsed = parse_nginx_line(trimmed);
                let body = parsed.render();
                if self.pending_lines[i].1.is_none() {
                    lines_txt.append(terminal::orange());
                    lines_txt.append(body.as_str());
                    lines_txt.append(terminal::reset());
                } else {
                    lines_txt.append(body.as_str());
                }
                lines_txt.append("\n");
                proof {
                    assert("\n"@ =~= seq!['\n']);
                    assert(preq.take(i + 1) =~= preq.take(i as int).push(e));
                    lemma_flush_lines_snoc(preq.take(i as int), e, width);
                    assert(lines_txt@ =~= flush_lines_text(preq.take(i + 1), width));
                }
                i = i + 1;
            }
            proof {
                assert(preq.take(n as int) =~= preq);
            }
            self.pending_lines = Vec::new();
            self.lines_skipped = 0;
            lines_txt.append("-- Output sampled at ");
            let dec = u64_to_dec(rate_val);
            lines_txt.append(dec.as_str());
            lines_txt.append("%\n");
            proof {
                reveal_strlit("-- Output sampled at ");
                reveal_strlit("%\n");
                assert("-- Output sampled at "@ =~= seq!['-', '-', ' ', 'O', 'u', 't', 'p',
                    'u', 't', ' ', 's', 'a', 'm', 'p', 'l', 'e', 'd', ' ', 'a', 't', ' ']);
                assert("%\n"@ =~= seq!['%', '\n']);
                assert(lines_txt@ =~= flush_text(preq, width, old(self).lines_skipped as int));
            }
        }
        self.groups.tick();
        proof {
            assert(groups_ticked(old(self).groups.groups(), self.groups.groups()));
        }
        let stats_txt = build_stats(&self.groups);
        if !flushing && stats_txt == self.lastprinted_stats {
            return None;
        }
        proof {
            if flushing {
                assert(lines_txt@.len() > 0);
            }
        }
        let wip: usize = if include_lines {
            if self.lines_to_wipe < usize::MAX {
                self.lines_to_wipe + 1
            } else {
                usize::MAX
            }
        } else {
            self.lines_to_wipe
        };
        let mut out_s = String::from_str("\r");
        out_s.append(terminal::csi());
        if wip == 0 {
            out_s.append("J");
        } else {
            let dec = u64_to_dec(wip as u64);
            out_s.append(dec.as_str());
            out_s.append("A");
            out_s.append(terminal::csi());
            out_s.append("J");
        }
        proof {
            reveal_strlit("\r");
            reveal_strlit("J");
            reveal_strlit("A");
            assert("\r"@ =~= seq!['\r']);
            assert("J"@ =~= seq!['J']);
            assert("A"@ =~= seq!['A']);
            assert(out_s@ =~= wiper_text(wip as int));
        }
        out_s.append(lines_txt.as_str());
        out_s.append(stats_txt.as_str());
        let nl = count_nl(&stats_txt);
        self.lines_to_wipe = nl;
        self.lastprinted_stats = stats_txt;
        Some(out_s)
    }
}

} // verus!
