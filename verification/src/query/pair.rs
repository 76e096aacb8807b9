//! The windowed comparison of two traces as JSON: times in microseconds,
//! counts as they are.

use vstd::prelude::*;
use crate::json::{json_views, Json, JsonView};
use crate::query::output::{
    matched_rows,
    pair_of,
    pair_rows,
    pairs_of,
    rows_small,
    PairRow,
};
use crate::values::{
    array,
    members_of,
    milli,
    milli_text,
    no_members,
    object,
    put_member,
    time_json,
    time_value,
    whole,
    whole_text,
};
use crate::windowed::delta::{DeltaData, DeltaRow, Unit};

verus! {

/// A figure: a time in microseconds, a count as it is.
pub open spec fn figure_text(u: Unit, v: int) -> Seq<char> {
    match u {
        Unit::Count => whole_text(v),
        Unit::Time => milli_text(v),
    }
}

fn figure(u: Unit, v: i128) -> (r: String)
    ensures
        r@ == figure_text(u, v as int),
{
    match u {
        Unit::Count => whole(v),
        Unit::Time => milli(v),
    }
}

pub open spec fn unit_name(u: Unit) -> Seq<char> {
    match u {
        Unit::Count => "n"@,
        Unit::Time => "ms"@,
    }
}

pub(crate) fn unit_text(u: Unit) -> (r: &'static str)
    ensures
        r@ == unit_name(u),
{
    match u {
        Unit::Count => "n",
        Unit::Time => "ms",
    }
}

/// A figure as a JSON number.
pub open spec fn figure_json(u: Unit, v: int) -> JsonView {
    JsonView::Number(figure_text(u, v))
}

/// A metric in two traces: the figure at the anchor and what it has over the
/// one before, and by how much the second trace differs from the first.
pub open spec fn pair_json(a: DeltaRow, b: DeltaRow) -> JsonView {
    JsonView::Obj(
        seq![
            ("a_delta"@, figure_json(a.unit, a.shoot - a.pre)),
            ("a_shoot"@, figure_json(a.unit, a.shoot as int)),
            ("b_delta"@, figure_json(a.unit, b.shoot - b.pre)),
            ("b_shoot"@, figure_json(a.unit, b.shoot as int)),
            ("diff_delta"@, figure_json(a.unit, (b.shoot - b.pre) - (a.shoot - a.pre))),
            ("diff_shoot"@, figure_json(a.unit, b.shoot - a.shoot)),
            ("metric"@, JsonView::Str(a.metric@)),
            ("unit"@, JsonView::Str(unit_name(a.unit))),
        ],
    )
}

fn pair_value(p: PairRow, Ghost(a): Ghost<DeltaRow>, Ghost(b): Ghost<DeltaRow>) -> (r: Json)
    requires
        pair_of(a, b, p),
    ensures
        r@ == pair_json(a, b),
{
    let mut m = no_members();
    put_member(&mut m, "a_delta", Json::Number(figure(p.unit, p.a_delta)));
    put_member(&mut m, "a_shoot", Json::Number(figure(p.unit, p.a_shoot)));
    put_member(&mut m, "b_delta", Json::Number(figure(p.unit, p.b_delta)));
    put_member(&mut m, "b_shoot", Json::Number(figure(p.unit, p.b_shoot)));
    put_member(&mut m, "diff_delta", Json::Number(figure(p.unit, p.diff_delta)));
    put_member(&mut m, "diff_shoot", Json::Number(figure(p.unit, p.diff_shoot)));
    put_member(&mut m, "metric", Json::Str(p.metric));
    put_member(&mut m, "unit", Json::Str(unit_text(p.unit).to_string()));
    assert(members_of(m@) =~= pair_json(a, b)->Obj_0);
    object(m)
}

/// One object for each metric that both traces have.
pub open spec fn pairs_json(a: Seq<DeltaRow>, b: Seq<DeltaRow>) -> Seq<JsonView> {
    let m = matched_rows(a, b, a.len() as int);
    Seq::new(m.len(), |k: int| pair_json(a[m[k].0], b[m[k].1]))
}

/// One object for each metric that both traces have.
pub fn compare_csv_rows(da: &DeltaData, db: &DeltaData) -> (r: Vec<Json>)
    requires
        rows_small(da.rows@),
        rows_small(db.rows@),
    ensures
        json_views(r@) == pairs_json(da.rows@, db.rows@),
{
    let pairs = pair_rows(da, db);
    let ghost all = pairs@;
    let ghost a = da.rows@;
    let ghost b = db.rows@;
    let ghost m = matched_rows(a, b, a.len() as int);
    let mut r: Vec<Json> = Vec::new();
    for p in it: pairs
        invariant
            it.seq() == all,
            pairs_of(a, b, all),
            m == matched_rows(a, b, a.len() as int),
            r@.len() == it.index(),
            forall|k: int|
                0 <= k < r@.len() ==> (#[trigger] r@[k])@ == pair_json(a[m[k].0], b[m[k].1]),
    {
        let ghost k = it.index();
        assert(pair_of(a[m[k].0], b[m[k].1], all[k]));
        r.push(pair_value(p, Ghost(a[m[k].0]), Ghost(b[m[k].1])));
    }
    assert(json_views(r@) =~= pairs_json(a, b));
    r
}

/// A window as a JSON array of its ends.
pub open spec fn window_json(w: (i64, i64)) -> JsonView {
    JsonView::Arr(seq![time_json(w.0 as int), time_json(w.1 as int)])
}

pub(crate) fn window_value(w: (i64, i64)) -> (r: Json)
    ensures
        r@ == window_json(w),
{
    let mut a: Vec<Json> = Vec::new();
    a.push(time_value(w.0 as i128));
    a.push(time_value(w.1 as i128));
    assert(json_views(a@) =~= window_json(w)->Arr_0);
    array(a)
}

/// The windows around an anchor.
pub open spec fn windows_json(d: DeltaData) -> JsonView {
    JsonView::Obj(
        seq![
            ("post"@, window_json(d.post)),
            ("pre"@, window_json(d.pre)),
            ("shoot"@, window_json(d.shoot)),
        ],
    )
}

pub(crate) fn windows_value(d: &DeltaData) -> (r: Json)
    ensures
        r@ == windows_json(*d),
{
    let mut m = no_members();
    put_member(&mut m, "post", window_value(d.post));
    put_member(&mut m, "pre", window_value(d.pre));
    put_member(&mut m, "shoot", window_value(d.shoot));
    assert(members_of(m@) =~= windows_json(*d)->Obj_0);
    object(m)
}

/// The comparison around the anchors of two traces; null where one has none.
pub open spec fn comparison_json(both: Option<(&DeltaData, &DeltaData)>) -> JsonView {
    match both {
        Some((a, b)) => JsonView::Obj(
            seq![
                ("anchor_a_us"@, time_json(a.anchor as int)),
                ("anchor_b_us"@, time_json(b.anchor as int)),
                ("rows"@, JsonView::Arr(pairs_json(a.rows@, b.rows@))),
                ("windows_a"@, windows_json(*a)),
                ("windows_b"@, windows_json(*b)),
            ],
        ),
        None => JsonView::Null,
    }
}

/// The comparison around the anchors of two traces; null where one has none.
pub fn compare_json(both: Option<(&DeltaData, &DeltaData)>) -> (r: Json)
    requires
        both matches Some((a, b)) ==> rows_small(a.rows@) && rows_small(b.rows@),
    ensures
        r@ == comparison_json(both),
{
    match both {
        Some((a, b)) => {
            let mut m = no_members();
            put_member(&mut m, "anchor_a_us", time_value(a.anchor));
            put_member(&mut m, "anchor_b_us", time_value(b.anchor));
            put_member(&mut m, "rows", array(compare_csv_rows(a, b)));
            put_member(&mut m, "windows_a", windows_value(a));
            put_member(&mut m, "windows_b", windows_value(b));
            assert(members_of(m@) =~= comparison_json(both)->Obj_0);
            object(m)
        },
        None => Json::Null,
    }
}

} // verus!
