//! Pieces that several sections share.

use vstd::prelude::*;
use crate::doc::{doc_view, make_ms, ms_num, put, put_num, put_u64, Doc, PieceView};
use crate::text::{decimal, chars_of, string_of};

verus! {

pub open spec fn txt(s: Seq<char>) -> PieceView {
    PieceView::Text(s)
}

pub open spec fn ms(t: int) -> PieceView {
    PieceView::Number(ms_num(t))
}

/// Whether a section looks at a window or at the whole trace.
pub open spec fn window_word(window: Option<(i64, i64)>) -> Seq<char> {
    match window {
        Some(_) => "windowed"@,
        None => "full trace"@,
    }
}

/// Whether a section looks at a window or at the whole trace.
pub fn window_label(window: Option<(i64, i64)>) -> (r: &'static str)
    ensures
        r@ == window_word(window),
{
    match window {
        Some(_) => "windowed",
        None => "full trace",
    }
}

/// The line that tells the window, in milliseconds from the start of the trace.
pub open spec fn window_pieces(window: Option<(i64, i64)>, min_ts: i64) -> Seq<PieceView> {
    match window {
        Some((lo, hi)) => seq![
            txt("- **Window**: "@),
            ms(lo - min_ts),
            txt("ms … "@),
            ms(hi - min_ts),
            txt("ms from trace start\n"@),
        ],
        None => Seq::empty(),
    }
}

/// Append the line that tells the window.
pub fn put_window(d: &mut Doc, window: Option<(i64, i64)>, min_ts: i64)
    ensures
        doc_view(final(d)@) == doc_view(old(d)@) + window_pieces(window, min_ts),
{
    let ghost before = doc_view(d@);
    match window {
        Some((lo, hi)) => {
            put(d, "- **Window**: ");
            put_num(d, make_ms(lo as i128 - min_ts as i128));
            put(d, "ms … ");
            put_num(d, make_ms(hi as i128 - min_ts as i128));
            put(d, "ms from trace start\n");
        },
        None => {},
    }
    assert(doc_view(d@) =~= before + window_pieces(window, min_ts));
}

/// The line that tells the window, with an empty line behind it.
pub open spec fn window_block(window: Option<(i64, i64)>, min_ts: i64) -> Seq<PieceView> {
    if window is Some {
        window_pieces(window, min_ts) + seq![txt("\n"@)]
    } else {
        Seq::empty()
    }
}

/// Append the line that tells the window, with an empty line behind it.
pub fn put_window_block(d: &mut Doc, window: Option<(i64, i64)>, min_ts: i64)
    ensures
        doc_view(final(d)@) == doc_view(old(d)@) + window_block(window, min_ts),
{
    let ghost before = doc_view(d@);
    if window.is_some() {
        put_window(d, window, min_ts);
        put(d, "\n");
    }
    assert(doc_view(d@) =~= before + window_block(window, min_ts));
}

/// What is told where only the first `top` of `total` rows are shown.
pub open spec fn more_pieces(top: usize, total: usize, what: Seq<char>) -> Seq<PieceView> {
    if total > top {
        seq![
            txt("\n_Showing "@),
            txt(decimal(top as nat)),
            txt(" of "@),
            txt(decimal(total as nat)),
            txt(what),
        ]
    } else {
        Seq::empty()
    }
}

/// Append what is told where only some rows are shown.
pub fn put_more(d: &mut Doc, top: usize, total: usize, what: &str)
    ensures
        doc_view(final(d)@) == doc_view(old(d)@) + more_pieces(top, total, what@),
{
    let ghost before = doc_view(d@);
    if total > top {
        put(d, "\n_Showing ");
        put_u64(d, top as u64);
        put(d, " of ");
        put_u64(d, total as u64);
        put(d, what);
    }
    assert(doc_view(d@) =~= before + more_pieces(top, total, what@));
}

/// At most `n` characters, with an ellipsis where some were cut off.
pub open spec fn shortened(s: Seq<char>, n: nat) -> Seq<char> {
    if s.len() <= n {
        s
    } else {
        s.take(n as int).push('…')
    }
}

/// At most `n` characters, with an ellipsis where some were cut off.
pub fn truncate(s: &str, n: usize) -> (r: String)
    ensures
        r@ == shortened(s@, n as nat),
{
    let c = chars_of(s);
    if c.len() <= n {
        return s.to_owned();
    }
    let mut t = string_of(&c, 0, n);
    assert(t@ =~= s@.take(n as int));
    t.push('…');
    t
}

/// The part after the last slash of an address.
pub fn short_url(url: &str) -> (r: String)
    ensures
        r@ == crate::text::after_slash(url@),
{
    crate::text::tail_of_path(url)
}

} // verus!
