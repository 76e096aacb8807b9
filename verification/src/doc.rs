//! Documents: text with numbers whose digits are left to whoever prints it.

use vstd::prelude::*;
use vstd::string::StringExecFns;
use crate::text::{decimal, u64_text};

verus! {

/// A number to print: `times * num / den / per`, zero where `den` is zero, with
/// so many decimals, with a plus sign where it is not negative if `plus` is set.
#[derive(Clone, Copy)]
pub struct Num {
    pub neg: bool,
    pub num: u128,
    pub den: u128,
    pub times: u32,
    pub per: u32,
    pub decimals: u8,
    pub plus: bool,
}

/// A piece of a document.
pub enum Piece {
    Text(String),
    Number(Num),
}

/// What a piece holds.
pub enum PieceView {
    Text(Seq<char>),
    Number(Num),
}

impl View for Piece {
    type V = PieceView;

    open spec fn view(&self) -> PieceView {
        match self {
            Piece::Text(s) => PieceView::Text(s@),
            Piece::Number(n) => PieceView::Number(*n),
        }
    }
}

pub type Doc = Vec<Piece>;

/// What a document holds.
pub open spec fn doc_view(d: Seq<Piece>) -> Seq<PieceView> {
    d.map_values(|p: Piece| p@)
}

/// The magnitude of a number.
pub open spec fn magnitude(v: int) -> nat {
    if v < 0 {
        (-v) as nat
    } else {
        v as nat
    }
}

/// A quotient, printed with so many decimals.
pub open spec fn ratio_num(num: int, den: int, times: u32, decimals: u8, plus: bool) -> Num {
    Num {
        neg: num < 0,
        num: magnitude(num) as u128,
        den: magnitude(den) as u128,
        times,
        per: 1,
        decimals,
        plus,
    }
}

/// A time in nanoseconds, printed as milliseconds with two decimals.
pub open spec fn ms_num(t: int) -> Num {
    ratio_num(t, 1_000_000, 1, 2, false)
}

/// Append text.
pub fn put(d: &mut Doc, s: &str)
    ensures
        doc_view(final(d)@) == doc_view(old(d)@).push(PieceView::Text(s@)),
{
    let ghost before = d@;
    d.push(Piece::Text(s.to_owned()));
    assert(doc_view(d@) =~= doc_view(before).push(PieceView::Text(s@)));
}

/// Append a whole number.
pub fn put_u64(d: &mut Doc, n: u64)
    ensures
        doc_view(final(d)@) == doc_view(old(d)@).push(PieceView::Text(decimal(n as nat))),
{
    let s = u64_text(n);
    put(d, s.as_str());
}

/// Append a number to print.
pub fn put_num(d: &mut Doc, n: Num)
    ensures
        doc_view(final(d)@) == doc_view(old(d)@).push(PieceView::Number(n)),
{
    let ghost before = d@;
    d.push(Piece::Number(n));
    assert(doc_view(d@) =~= doc_view(before).push(PieceView::Number(n)));
}

/// A quotient, printed with so many decimals.
pub fn make_ratio(num: i128, den: i128, times: u32, decimals: u8, plus: bool) -> (r: Num)
    ensures
        r == ratio_num(num as int, den as int, times, decimals, plus),
{
    Num { neg: num < 0, num: abs(num), den: abs(den), times, per: 1, decimals, plus }
}

/// The magnitude of a number.
pub fn abs(v: i128) -> (r: u128)
    ensures
        r == magnitude(v as int),
{
    if v == i128::MIN {
        0x8000_0000_0000_0000_0000_0000_0000_0000
    } else if v < 0 {
        (-v) as u128
    } else {
        v as u128
    }
}

/// A time, printed as milliseconds with two decimals.
pub fn make_ms(t: i128) -> (r: Num)
    ensures
        r == ms_num(t as int),
{
    make_ratio(t, 1_000_000, 1, 2, false)
}

/// A whole number with its sign.
pub open spec fn signed(v: int) -> Seq<char> {
    if v < 0 {
        "-"@ + decimal((-v) as nat)
    } else {
        decimal(v as nat)
    }
}

/// A time in whole milliseconds, cut off towards zero.
pub open spec fn whole_ms(t: int) -> int {
    if t < 0 {
        -((-t) / 1_000_000)
    } else {
        t / 1_000_000
    }
}

/// Append a time in whole milliseconds.
pub fn put_whole_ms(d: &mut Doc, t: i64)
    ensures
        doc_view(final(d)@) == doc_view(old(d)@).push(PieceView::Text(signed(whole_ms(t as int)))),
{
    let m: u64 = if t < 0 {
        (-(t as i128)) as u64 / 1_000_000
    } else {
        t as u64 / 1_000_000
    };
    if t < 0 && m > 0 {
        let mut s = String::new();
        s.append("-");
        s.append(u64_text(m).as_str());
        assert(s@ =~= signed(whole_ms(t as int)));
        put(d, s.as_str());
    } else {
        put_u64(d, m);
    }
}

} // verus!
