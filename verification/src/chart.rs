//! Line charts as inline SVG. Positions on the canvas are exact quotients.

use vstd::prelude::*;
use crate::doc::{doc_view, make_ratio, put, put_num, put_u64, ratio_num, Doc, PieceView};
use crate::html::{esc, escaped};
use crate::render::txt;
use crate::text::decimal;

verus! {

/// A point of a chart: a time in nanoseconds and a value.
pub type Point = (i64, i64);

/// Which point stands at place `k` when `len` points are thinned out to `n`.
pub open spec fn kept_place(len: int, n: int, k: int) -> int {
    k * (len - 1) / (if n > 1 {
        n - 1
    } else {
        1
    })
}

/// At most `n` points, evenly spread, the first and the last among them.
pub open spec fn thinned(points: Seq<Point>, n: nat) -> Seq<Point> {
    if points.len() <= n {
        points
    } else {
        Seq::new(n, |k: int| points[kept_place(points.len() as int, n as int, k)])
    }
}

proof fn lemma_kept_place(len: int, n: int, k: int)
    requires
        0 < n < len,
        0 <= k < n,
    ensures
        0 <= kept_place(len, n, k) < len,
        0 <= k * (len - 1),
{
    let d = if n > 1 {
        n - 1
    } else {
        1
    };
    let x = len - 1;
    assert(0 <= k * x <= d * x) by (nonlinear_arith)
        requires
            0 <= k <= d,
            0 <= x,
    ;
    assert(0 <= (k * x) / d <= x) by (nonlinear_arith)
        requires
            0 <= k * x <= d * x,
            d > 0,
            x >= 0,
    ;
}

/// The first and the last point stay.
pub proof fn lemma_thinned_ends(points: Seq<Point>, n: nat)
    requires
        points.len() >= 2,
        n >= 2,
    ensures
        thinned(points, n)[0] == points[0],
        thinned(points, n).last() == points.last(),
{
    if points.len() > n {
        let len = points.len() as int;
        let (d, x) = (n - 1, len - 1);
        assert(0 * x / d == 0) by (nonlinear_arith)
            requires
                d >= 1,
        ;
        assert(d * x / d == x) by (nonlinear_arith)
            requires
                d >= 1,
        ;
    }
}

/// Thin a list of points out to at most `n`.
pub fn decimate(points: &Vec<Point>, n: usize) -> (r: Vec<Point>)
    requires
        n > 0,
    ensures
        r@ == thinned(points@, n as nat),
{
    let len = points.len();
    let m: usize = if len < n {
        len
    } else {
        n
    };
    let d: u128 = if n > 1 {
        n as u128 - 1
    } else {
        1
    };
    let mut r: Vec<Point> = Vec::new();
    let mut k: usize = 0;
    while k < m
        invariant
            n > 0,
            len == points@.len(),
            m == (if len < n {
                len
            } else {
                n
            }),
            d == (if n > 1 {
                n - 1
            } else {
                1
            }),
            k <= m,
            r@.len() == k,
            forall|j: int| 0 <= j < k ==> #[trigger] r@[j] == thinned(points@, n as nat)[j],
        decreases m - k,
    {
        if len <= n {
            r.push(points[k]);
        } else {
            proof {
                lemma_kept_place(len as int, n as int, k as int);
                let (a, b) = (k as int, len - 1);
                assert(a * b <= 0xffff_ffff_ffff_ffff * 0xffff_ffff_ffff_ffff) by (nonlinear_arith)
                    requires
                        0 <= a <= 0xffff_ffff_ffff_ffff,
                        0 <= b <= 0xffff_ffff_ffff_ffff,
                ;
            }
            let at: u128 = k as u128 * (len as u128 - 1) / d;
            r.push(points[at as usize]);
        }
        k = k + 1;
    }
    assert(r@ =~= thinned(points@, n as nat));
    r
}

/// Smallest and largest value.
pub open spec fn low(p: Seq<Point>) -> int
    decreases p.len(),
{
    if p.len() <= 1 {
        p[0].1 as int
    } else if p.last().1 < low(p.drop_last()) {
        p.last().1 as int
    } else {
        low(p.drop_last())
    }
}

pub open spec fn high(p: Seq<Point>) -> int
    decreases p.len(),
{
    if p.len() <= 1 {
        p[0].1 as int
    } else if p.last().1 > high(p.drop_last()) {
        p.last().1 as int
    } else {
        high(p.drop_last())
    }
}

/// What a chart spans: its first and last time, its lowest and highest value.
#[derive(Clone, Copy)]
pub struct Frame {
    pub x0: i64,
    pub x1: i64,
    pub low: i64,
    pub high: i64,
}

pub open spec fn frame_of(p: Seq<Point>) -> Frame {
    Frame { x0: p[0].0, x1: p.last().0, low: low(p) as i64, high: high(p) as i64 }
}

fn find_frame(p: &Vec<Point>) -> (f: Frame)
    requires
        p@.len() > 0,
    ensures
        f == frame_of(p@),
        f.low <= f.high,
        forall|k: int| 0 <= k < p@.len() ==> f.low <= (#[trigger] p@[k]).1 <= f.high,
{
    let mut lo = p[0].1;
    let mut hi = p[0].1;
    let mut k: usize = 1;
    assert(p@.take(1)[0] == p@[0]);
    while k < p.len()
        invariant
            1 <= k <= p@.len(),
            lo == low(p@.take(k as int)),
            hi == high(p@.take(k as int)),
            lo <= hi,
            forall|j: int| 0 <= j < k ==> lo <= (#[trigger] p@[j]).1 <= hi,
        decreases p@.len() - k,
    {
        assert(p@.take(k + 1).drop_last() =~= p@.take(k as int));
        let y = p[k].1;
        if y < lo {
            lo = y;
        }
        if y > hi {
            hi = y;
        }
        k = k + 1;
    }
    assert(p@.take(p@.len() as int) =~= p@);
    let n = p.len();
    Frame { x0: p[0].0, x1: p[n - 1].0, low: lo, high: hi }
}

/// Where a time stands on the canvas, between 64 and 984 from the left.
pub open spec fn x_num(f: Frame, x: i64) -> PieceView {
    let w = f.x1 - f.x0;
    if w > 0 {
        PieceView::Number(ratio_num(64 * w + 920 * (x - f.x0), w, 1, 2, false))
    } else {
        PieceView::Number(ratio_num(64 + 920_000 * (x - f.x0), 1, 1, 2, false))
    }
}

/// The height of a chart's values; one where they are all the same.
pub open spec fn height(f: Frame) -> int {
    if f.high > f.low {
        f.high - f.low
    } else {
        1
    }
}

/// Where a value stands on the canvas, between 14 and 230 from the top, with a
/// twentieth of the height left free above and below.
pub open spec fn y_num(f: Frame, y: i64) -> PieceView {
    let h = height(f);
    PieceView::Number(
        ratio_num(14 * 22 * h + 216 * (20 * (f.high - y) + h), 22 * h, 1, 2, false),
    )
}

/// The line through the first `n` points.
pub open spec fn path_pieces(p: Seq<Point>, f: Frame, n: int) -> Seq<PieceView>
    decreases n,
{
    if n <= 0 {
        Seq::empty()
    } else {
        path_pieces(p, f, n - 1) + seq![
            txt(
                if n == 1 {
                    "M"@
                } else {
                    " L"@
                },
            ),
            x_num(f, p[n - 1].0),
            txt(" "@),
            y_num(f, p[n - 1].1),
        ]
    }
}

/// The `i`-th of five horizontal lines, with the value that it stands for.
pub open spec fn grid_pieces(f: Frame, i: int, unit: u32, y_fmt: Seq<char>) -> Seq<PieceView> {
    let r = f.high - f.low;
    seq![
        txt("<line x1=\"64.0\" y1=\""@),
        txt(decimal((14 + 54 * i) as nat)),
        txt(".0\" x2=\"984.0\" y2=\""@),
        txt(decimal((14 + 54 * i) as nat)),
        txt(".0\" class=\"grid\"/><text x=\"56.0\" y=\""@),
        txt(decimal((18 + 54 * i) as nat)),
        txt(".0\" class=\"axis\">"@),
        PieceView::Number(ratio_num(40 * f.high + 2 * r - 11 * r * i, 40 * unit, 1, 1, false)),
        txt(y_fmt),
        txt("</text>"@),
    ]
}

pub open spec fn grids_pieces(f: Frame, unit: u32, y_fmt: Seq<char>, n: int) -> Seq<PieceView>
    decreases n,
{
    if n <= 0 {
        Seq::empty()
    } else {
        grids_pieces(f, unit, y_fmt, n - 1) + grid_pieces(f, n - 1, unit, y_fmt)
    }
}

/// A time on the axis: in seconds where the chart spans two of them, else in
/// milliseconds.
pub open spec fn time_pieces(f: Frame, x: i64) -> Seq<PieceView> {
    if f.x1 - f.x0 >= 2_000_000_000 {
        seq![PieceView::Number(ratio_num(x as int, 1_000_000_000, 1, 1, false)), txt("s"@)]
    } else {
        seq![PieceView::Number(ratio_num(x as int, 1_000_000, 1, 1, false)), txt("ms"@)]
    }
}

/// The chart itself.
pub open spec fn svg_pieces(p: Seq<Point>, f: Frame, unit: u32, y_fmt: Seq<char>, color: Seq<char>) -> Seq<
    PieceView,
> {
    let n = p.len() as int;
    seq![
        txt(
            "<svg class=\"chart\" viewBox=\"0 0 1000 260\" preserveAspectRatio=\"xMidYMid meet\">"@,
        ),
    ] + grids_pieces(f, unit, y_fmt, 5) + seq![
        txt("<text x=\"64.0\" y=\"252\" class=\"axis\">"@),
    ] + time_pieces(f, f.x0) + seq![
        txt("</text><text x=\"984.0\" y=\"252\" class=\"axis\" text-anchor=\"end\">"@),
    ] + time_pieces(f, f.x1) + seq![txt("</text><path d=\""@)] + path_pieces(p, f, n) + seq![
        txt(" L"@),
        x_num(f, f.x1),
        txt(" 230.00 L"@),
        x_num(f, f.x0),
        txt(" 230.00 Z\" class=\"area\" style=\"fill:"@),
        txt(color),
        txt("\"/><path d=\""@),
    ] + path_pieces(p, f, n) + seq![
        txt("\" fill=\"none\" stroke=\""@),
        txt(color),
        txt("\" stroke-width=\"1.8\"/></svg>"@),
    ]
}

/// How many points a chart draws.
pub const CHART_POINTS: usize = 700;

/// A chart with its title; without points enough for a line, only that.
pub open spec fn chart_html(
    title: Seq<char>,
    points: Seq<Point>,
    unit: u32,
    y_fmt: Seq<char>,
    color: Seq<char>,
) -> Seq<PieceView> {
    let head = seq![
        txt("<div class=\"chart-title\">"@),
        txt(escaped(title)),
        txt("</div>"@),
    ];
    let p = thinned(points, CHART_POINTS as nat);
    if points.len() < 2 {
        head + seq![txt("<div class=\"muted\">No data.</div>"@)]
    } else {
        head + svg_pieces(p, frame_of(p), unit, y_fmt, color)
    }
}

fn put_x(d: &mut Doc, f: Frame, x: i64)
    ensures
        doc_view(final(d)@) == doc_view(old(d)@).push(x_num(f, x)),
{
    let w: i128 = f.x1 as i128 - f.x0 as i128;
    let at: i128 = x as i128 - f.x0 as i128;
    if w > 0 {
        put_num(d, make_ratio(64 * w + 920 * at, w, 1, 2, false));
    } else {
        put_num(d, make_ratio(64 + 920_000 * at, 1, 1, 2, false));
    }
}

fn put_y(d: &mut Doc, f: Frame, y: i64)
    ensures
        doc_view(final(d)@) == doc_view(old(d)@).push(y_num(f, y)),
{
    let h: i128 = if f.high > f.low {
        f.high as i128 - f.low as i128
    } else {
        1
    };
    let off: i128 = f.high as i128 - y as i128;
    put_num(d, make_ratio(308 * h + 216 * (20 * off + h), 22 * h, 1, 2, false));
}

fn put_path(d: &mut Doc, p: &Vec<Point>, f: Frame)
    ensures
        doc_view(final(d)@) == doc_view(old(d)@) + path_pieces(p@, f, p@.len() as int),
{
    let ghost before = doc_view(d@);
    let mut k: usize = 0;
    assert(before + path_pieces(p@, f, 0) =~= before);
    while k < p.len()
        invariant
            k <= p@.len(),
            doc_view(d@) == before + path_pieces(p@, f, k as int),
        decreases p@.len() - k,
    {
        if k == 0 {
            put(d, "M");
        } else {
            put(d, " L");
        }
        put_x(d, f, p[k].0);
        put(d, " ");
        put_y(d, f, p[k].1);
        assert(doc_view(d@) =~= before + path_pieces(p@, f, k + 1));
        k = k + 1;
    }
}

#[verifier::rlimit(30)]
fn put_grid(d: &mut Doc, f: Frame, unit: u32, y_fmt: &str)
    ensures
        doc_view(final(d)@) == doc_view(old(d)@) + grids_pieces(f, unit, y_fmt@, 5),
{
    let ghost before = doc_view(d@);
    let r: i128 = f.high as i128 - f.low as i128;
    let mut i: u64 = 0;
    assert(before + grids_pieces(f, unit, y_fmt@, 0) =~= before);
    while i < 5
        invariant
            i <= 5,
            r == f.high - f.low,
            doc_view(d@) == before + grids_pieces(f, unit, y_fmt@, i as int),
        decreases 5 - i,
    {
        put(d, "<line x1=\"64.0\" y1=\"");
        put_u64(d, 14 + 54 * i);
        put(d, ".0\" x2=\"984.0\" y2=\"");
        put_u64(d, 14 + 54 * i);
        put(d, ".0\" class=\"grid\"/><text x=\"56.0\" y=\"");
        put_u64(d, 18 + 54 * i);
        put(d, ".0\" class=\"axis\">");
        proof {
            let (a, b) = (r as int, i as int);
            assert(-11 * 0x1_0000_0000_0000_0000 * 5 <= 11 * a * b <= 11 * 0x1_0000_0000_0000_0000 * 5)
                by (nonlinear_arith)
                requires
                    -0x1_0000_0000_0000_0000 <= a <= 0x1_0000_0000_0000_0000,
                    0 <= b <= 5,
            ;
        }
        put_num(
            d,
            make_ratio(
                40 * f.high as i128 + 2 * r - 11 * r * i as i128,
                40 * unit as i128,
                1,
                1,
                false,
            ),
        );
        put(d, y_fmt);
        put(d, "</text>");
        assert(doc_view(d@) =~= before + grids_pieces(f, unit, y_fmt@, i + 1));
        i = i + 1;
    }
}

fn put_time(d: &mut Doc, f: Frame, x: i64)
    ensures
        doc_view(final(d)@) == doc_view(old(d)@) + time_pieces(f, x),
{
    let ghost before = doc_view(d@);
    if f.x1 as i128 - f.x0 as i128 >= 2_000_000_000 {
        put_num(d, make_ratio(x as i128, 1_000_000_000, 1, 1, false));
        put(d, "s");
    } else {
        put_num(d, make_ratio(x as i128, 1_000_000, 1, 1, false));
        put(d, "ms");
    }
    assert(doc_view(d@) =~= before + time_pieces(f, x));
}

#[verifier::rlimit(30)]
fn put_svg(d: &mut Doc, p: &Vec<Point>, f: Frame, unit: u32, y_fmt: &str, color: &str)
    ensures
        doc_view(final(d)@) == doc_view(old(d)@) + svg_pieces(p@, f, unit, y_fmt@, color@),
{
    let ghost before = doc_view(d@);
    put(
        d,
        "<svg class=\"chart\" viewBox=\"0 0 1000 260\" preserveAspectRatio=\"xMidYMid meet\">",
    );
    put_grid(d, f, unit, y_fmt);
    put(d, "<text x=\"64.0\" y=\"252\" class=\"axis\">");
    put_time(d, f, f.x0);
    put(d, "</text><text x=\"984.0\" y=\"252\" class=\"axis\" text-anchor=\"end\">");
    put_time(d, f, f.x1);
    put(d, "</text><path d=\"");
    put_path(d, p, f);
    put(d, " L");
    put_x(d, f, f.x1);
    put(d, " 230.00 L");
    put_x(d, f, f.x0);
    put(d, " 230.00 Z\" class=\"area\" style=\"fill:");
    put(d, color);
    put(d, "\"/><path d=\"");
    put_path(d, p, f);
    put(d, "\" fill=\"none\" stroke=\"");
    put(d, color);
    put(d, "\" stroke-width=\"1.8\"/></svg>");
    assert(doc_view(d@) =~= before + svg_pieces(p@, f, unit, y_fmt@, color@));
}

/// A line chart over time. A value of the chart is `unit` times the number that
/// stands on its axis.
pub fn line_chart(title: &str, points: &Vec<Point>, unit: u32, y_fmt: &str, color: &str) -> (d: Doc)
    ensures
        doc_view(d@) == chart_html(title@, points@, unit, y_fmt@, color@),
{
    let mut d: Doc = Vec::new();
    put(&mut d, "<div class=\"chart-title\">");
    put(&mut d, esc(title).as_str());
    put(&mut d, "</div>");
    let ghost head = doc_view(d@);
    assert(head =~= seq![
        txt("<div class=\"chart-title\">"@),
        txt(escaped(title@)),
        txt("</div>"@),
    ]);
    if points.len() < 2 {
        put(&mut d, "<div class=\"muted\">No data.</div>");
        assert(doc_view(d@) =~= head + seq![txt("<div class=\"muted\">No data.</div>"@)]);
        return d;
    }
    let p = decimate(points, CHART_POINTS);
    let f = find_frame(&p);
    put_svg(&mut d, &p, f, unit, y_fmt, color);
    d
}

} // verus!
