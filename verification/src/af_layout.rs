//! The table of a part with alternate functions: a column for each AF
//! number and one for the additional functions.

use crate::db::{slots_in_range, PartInfo, PinInfo, PinModel, SignalInfo, SignalMap,
    SignalMapModel, SignalModel};
use crate::error::{Failure, FailureModel};
use crate::scan::{lemma_filter_step, result_model};
use crate::pattern::any_is_match;
use crate::table::{cell, cut_by_none, filter_column, kept, lemma_filter_keeps_untouched,
    lemma_filter_lone, lemma_filter_none, lemma_filter_unmatched, lemma_substituted_unmatched,
    matched_by_none, untouched, FilterModel, SignalFilter};
use crate::text::{join, join_strings};
use vstd::prelude::*;

verus! {

/// The column of the alternate-function layout that a mapping puts its
/// signal in: the AF number, or the last column for an additional function.
/// A remap has no column in this layout.
pub open spec fn slot(map: SignalMapModel) -> Option<int> {
    match map {
        SignalMapModel::AF(n) => Some(n as int),
        SignalMapModel::AddF => Some(16),
        SignalMapModel::Remap(_) => None,
    }
}

/// The test for a signal of column `c`.
pub open spec fn in_slot(c: int) -> spec_fn(SignalModel) -> bool {
    |signal: SignalModel| slot(signal.map) == Some(c)
}

/// The name of a signal.
pub open spec fn name_of() -> spec_fn(SignalModel) -> Seq<char> {
    |signal: SignalModel| signal.name
}

/// The names of the signals of column `c`, in the order of the pin's signals.
pub open spec fn bucket(signals: Seq<SignalModel>, c: int) -> Seq<Seq<char>> {
    signals.filter(in_slot(c)).map_values(name_of())
}

/// The cell of column `c` of a pin in the alternate-function layout.
pub open spec fn af_cell(filter: FilterModel, signals: Seq<SignalModel>) -> spec_fn(int) -> Seq<
    char,
> {
    |c: int| cell(filter_column(filter, bucket(signals, c)))
}

/// The row of a pin in the alternate-function layout: name, position, and 17
/// cells, the first 16 for AF0 to AF15.
pub open spec fn af_row(filter: FilterModel, pin: PinModel) -> Seq<Seq<char>> {
    seq![pin.name, pin.position] + Seq::new(17, af_cell(filter, pin.signals))
}

/// `af_row` as a function of the pin alone.
pub open spec fn af_row_of(filter: FilterModel) -> spec_fn(PinModel) -> Seq<Seq<char>> {
    |pin: PinModel| af_row(filter, pin)
}

/// Some signal is mapped by remap.
pub open spec fn has_remap(signals: Seq<SignalModel>) -> bool {
    exists|j: int| 0 <= j < signals.len() && (#[trigger] signals[j]).map is Remap
}

/// Some signal of some pin is mapped by remap.
pub open spec fn any_remap(pins: Seq<PinModel>) -> bool {
    exists|i: int| 0 <= i < pins.len() && has_remap((#[trigger] pins[i]).signals)
}

/// The rows of the alternate-function layout, one for each pin; a signal
/// mapped by remap makes the part a contradiction of its mode.
pub open spec fn af_rows(filter: FilterModel, pins: Seq<PinModel>) -> Result<
    Seq<Seq<Seq<char>>>,
    FailureModel,
> {
    if any_remap(pins) {
        Err(FailureModel::ModeMismatch)
    } else {
        Ok(pins.map_values(af_row_of(filter)))
    }
}

/// Whether some signal of some pin is mapped by remap.
fn find_remap(pins: &Vec<PinInfo>) -> (r: bool)
    ensures
        r == any_remap(pins.deep_view()),
{
    let mut i: usize = 0;
    while i < pins.len()
        invariant
            i <= pins.len(),
            forall|k: int| 0 <= k < i ==> !has_remap((#[trigger] pins.deep_view()[k]).signals),
        decreases pins.len() - i,
    {
        let signals: &Vec<SignalInfo> = &pins[i].signals;
        assert(pins.deep_view()[i as int].signals == signals.deep_view());
        let mut j: usize = 0;
        while j < signals.len()
            invariant
                j <= signals.len(),
                i < pins.len(),
                pins.deep_view()[i as int].signals == signals.deep_view(),
                forall|l: int| 0 <= l < j ==> !((#[trigger] signals.deep_view()[l]).map is Remap),
            decreases signals.len() - j,
        {
            match signals[j].map {
                SignalMap::Remap(_) => {
                    assert(signals.deep_view()[j as int].map is Remap);
                    assert(has_remap(pins.deep_view()[i as int].signals));
                    return true;
                },
                _ => {
                    assert(!(signals.deep_view()[j as int].map is Remap));
                },
            }
            j += 1;
        }
        i += 1;
    }
    false
}

/// The names of the signals of column `c`.
pub fn bucket_names(signals: &Vec<SignalInfo>, c: u8) -> (r: Vec<String>)
    ensures
        r.deep_view() == bucket(signals.deep_view(), c as int),
{
    let ghost all = signals.deep_view();
    let ghost q = in_slot(c as int);
    let mut out: Vec<String> = Vec::new();
    let mut k: usize = 0;
    proof {
        reveal(Seq::filter);
        assert(out.deep_view() =~= all.take(0).filter(q).map_values(name_of()));
    }
    while k < signals.len()
        invariant
            k <= signals.len(),
            all == signals.deep_view(),
            q == in_slot(c as int),
            out.deep_view() == all.take(k as int).filter(q).map_values(name_of()),
        decreases signals.len() - k,
    {
        proof {
            lemma_filter_step(all, q, k as int);
            assert(all[k as int] == signals[k as int].deep_view());
        }
        let here: bool = match signals[k].map {
            SignalMap::AF(n) => n == c,
            SignalMap::AddF => c == 16,
            SignalMap::Remap(_) => false,
        };
        if here {
            let ghost before = out.deep_view();
            out.push(signals[k].name.clone());
            assert(out.deep_view() =~= before.push(signals[k as int].name@));
            assert(all.take(k as int).filter(q).push(all[k as int]).map_values(name_of())
                =~= all.take(k as int).filter(q).map_values(name_of()).push(
                signals[k as int].name@,
            ));
        }
        k += 1;
    }
    assert(all.take(k as int) == all);
    out
}

/// The row of one pin in the alternate-function layout.
fn pin_row_af(pin: &PinInfo, filter: &SignalFilter) -> (r: Vec<String>)
    ensures
        r.deep_view() == af_row(filter@, pin.deep_view()),
{
    let ghost f = af_cell(filter@, pin.signals.deep_view());
    let mut row: Vec<String> = Vec::new();
    row.push(pin.name.clone());
    row.push(pin.position.clone());
    assert(row.deep_view() =~= seq![pin.name@, pin.position@] + Seq::new(0, f));
    let mut c: u8 = 0;
    while c < 17
        invariant
            c <= 17,
            f == af_cell(filter@, pin.signals.deep_view()),
            row.deep_view() == seq![pin.name@, pin.position@] + Seq::new(c as nat, f),
        decreases 17 - c,
    {
        let names: Vec<String> = bucket_names(&pin.signals, c);
        let kept: Vec<String> = filter.filter_column(&names);
        let text: String = join_strings(&kept, " ");
        let ghost before = row.deep_view();
        row.push(text);
        assert(row.deep_view() =~= before.push(f(c as int)));
        assert(seq![pin.name@, pin.position@] + Seq::new((c + 1) as nat, f) =~= (seq![
            pin.name@,
            pin.position@,
        ] + Seq::new(c as nat, f)).push(f(c as int)));
        c += 1;
    }
    row
}

/// Produce a pin out table for AF based parts: a row for each pin, or the
/// fault of a signal that is mapped by remap.
pub fn write_pin_out_af(part_info: &PartInfo, filter: &SignalFilter) -> (r: Result<
    Vec<Vec<String>>,
    Failure,
>)
    requires
        slots_in_range(part_info.deep_view().pins),
    ensures
        result_model(r) == af_rows(filter@, part_info.deep_view().pins),
{
    if find_remap(&part_info.pins) {
        return Err(Failure::ModeMismatch);
    }
    let ghost pins = part_info.pins.deep_view();
    let ghost f = af_row_of(filter@);
    let mut rows: Vec<Vec<String>> = Vec::new();
    let mut k: usize = 0;
    assert(rows.deep_view() =~= pins.take(0).map_values(f));
    while k < part_info.pins.len()
        invariant
            k <= part_info.pins.len(),
            pins == part_info.pins.deep_view(),
            f == af_row_of(filter@),
            rows.deep_view() == pins.take(k as int).map_values(f),
        decreases part_info.pins.len() - k,
    {
        let row: Vec<String> = pin_row_af(&part_info.pins[k], filter);
        let ghost before = rows.deep_view();
        rows.push(row);
        assert(pins[k as int] == part_info.pins[k as int].deep_view());
        assert(rows.deep_view() =~= before.push(f(pins[k as int])));
        assert(pins.take(k + 1).map_values(f) =~= pins.take(k as int).map_values(f).push(
            f(pins[k as int]),
        ));
        k += 1;
    }
    assert(pins.take(k as int) == pins);
    Ok(rows)
}

/// A name stands in a column of the alternate-function layout exactly for
/// the signals of that name that are mapped to the column.
pub proof fn lemma_bucket_members(signals: Seq<SignalModel>, c: int, name: Seq<char>)
    ensures
        bucket(signals, c).contains(name) <==> exists|j: int|
            0 <= j < signals.len() && (#[trigger] signals[j]).name == name && slot(signals[j].map)
                == Some(c),
{
    let q = in_slot(c);
    let chosen = signals.filter(q);
    if bucket(signals, c).contains(name) {
        let i = choose|i: int| 0 <= i < bucket(signals, c).len() && bucket(signals, c)[i] == name;
        assert(chosen[i].name == name);
        signals.lemma_filter_pred(q, i);
        assert(chosen.contains(chosen[i]));
        signals.lemma_filter_contains_rev(q, chosen[i]);
        let j = choose|j: int| 0 <= j < signals.len() && signals[j] == chosen[i];
        assert(signals[j].name == name && slot(signals[j].map) == Some(c));
    }
    if exists|j: int|
        0 <= j < signals.len() && (#[trigger] signals[j]).name == name && slot(signals[j].map)
            == Some(c) {
        let j = choose|j: int|
            0 <= j < signals.len() && (#[trigger] signals[j]).name == name && slot(signals[j].map)
                == Some(c);
        signals.lemma_filter_contains(q, j);
        let i = choose|i: int| 0 <= i < chosen.len() && chosen[i] == signals[j];
        assert(bucket(signals, c)[i] == name);
    }
}

/// A signal mapped to the alternate function `k`, from 0 to 15, stands in
/// column `k`, and an additional function stands in the last column; in any
/// other column the signal's name stands only for another signal of that
/// name.
pub proof fn lemma_signal_column(signals: Seq<SignalModel>, i: int, c: int)
    requires
        0 <= i < signals.len(),
    ensures
        signals[i].map matches SignalMapModel::AF(k) ==> k <= 15 ==> bucket(
            signals,
            k as int,
        ).contains(signals[i].name),
        signals[i].map is AddF ==> bucket(signals, 16).contains(signals[i].name),
        bucket(signals, c).contains(signals[i].name) && slot(signals[i].map) != Some(c)
            ==> exists|j: int|
            0 <= j < signals.len() && j != i && (#[trigger] signals[j]).name == signals[i].name
                && slot(signals[j].map) == Some(c),
{
    let name = signals[i].name;
    match signals[i].map {
        SignalMapModel::AF(k) => {
            lemma_bucket_members(signals, k as int, name);
        },
        SignalMapModel::AddF => {
            lemma_bucket_members(signals, 16, name);
        },
        _ => {},
    }
    lemma_bucket_members(signals, c, name);
}

/// The row of a pin in the alternate-function layout has 19 cells: the name,
/// the position, and at place `2 + c` the filtered names of column `c`.
pub proof fn lemma_af_row_cells(filter: FilterModel, pin: PinModel, c: int)
    requires
        0 <= c < 17,
    ensures
        af_row(filter, pin).len() == 19,
        af_row(filter, pin)[0] == pin.name,
        af_row(filter, pin)[1] == pin.position,
        af_row(filter, pin)[2 + c] == cell(filter_column(filter, bucket(pin.signals, c))),
{
}

/// The names of a column are names of signals of the pin.
pub proof fn lemma_bucket_names(signals: Seq<SignalModel>, c: int, k: int) -> (j: int)
    requires
        0 <= k < bucket(signals, c).len(),
    ensures
        0 <= j < signals.len(),
        signals[j].name == bucket(signals, c)[k],
        slot(signals[j].map) == Some(c),
{
    let name = bucket(signals, c)[k];
    assert(bucket(signals, c).contains(name));
    lemma_bucket_members(signals, c, name);
    choose|j: int|
        0 <= j < signals.len() && (#[trigger] signals[j]).name == name && slot(signals[j].map)
            == Some(c)
}

/// A signal whose name none of the filter's rules touches stands in the cell
/// of its column, whatever the other signals of the pin are.
pub proof fn lemma_signal_in_its_cell(
    filter: FilterModel,
    signals: Seq<SignalModel>,
    i: int,
    c: int,
)
    requires
        0 <= i < signals.len(),
        untouched(filter, signals[i].name),
        slot(signals[i].map) == Some(c),
    ensures
        filter_column(filter, bucket(signals, c)).contains(signals[i].name),
{
    lemma_bucket_members(signals, c, signals[i].name);
    lemma_filter_keeps_untouched(filter, bucket(signals, c), signals[i].name);
}

/// Where no substitution and no factorization matches a signal name of the
/// pin, each cell of the pin's row holds the names of the signals of its
/// column, in their order, but for those that an exclusion matches.
pub proof fn lemma_unmatched_row(filter: FilterModel, pin: PinModel, c: int)
    requires
        forall|j: int|
            0 <= j < pin.signals.len() ==> matched_by_none(
                filter.subs,
                (#[trigger] pin.signals[j]).name,
            ) && cut_by_none(filter.facts_sep, pin.signals[j].name),
        0 <= c < 17,
    ensures
        filter_column(filter, bucket(pin.signals, c)) == bucket(pin.signals, c).filter(
            kept(filter.excludes),
        ),
        af_row(filter, pin)[2 + c] == cell(bucket(pin.signals, c).filter(kept(filter.excludes))),
{
    let names = bucket(pin.signals, c);
    assert forall|k: int| 0 <= k < names.len() implies matched_by_none(
        filter.subs,
        #[trigger] names[k],
    ) && cut_by_none(filter.facts_sep, names[k]) by {
        let j = lemma_bucket_names(pin.signals, c, k);
        assert(matched_by_none(filter.subs, pin.signals[j].name));
    }
    lemma_filter_unmatched(filter, names);
}

/// Where no substitution and no factorization matches a signal name of the
/// pin, a signal whose name no other signal of the pin bears stands in no
/// cell but that of its own column.
pub proof fn lemma_signal_in_no_other_cell(
    filter: FilterModel,
    pin: PinModel,
    i: int,
    c: int,
)
    requires
        forall|j: int|
            0 <= j < pin.signals.len() ==> matched_by_none(
                filter.subs,
                (#[trigger] pin.signals[j]).name,
            ) && cut_by_none(filter.facts_sep, pin.signals[j].name),
        0 <= i < pin.signals.len(),
        forall|j: int|
            0 <= j < pin.signals.len() && j != i ==> (#[trigger] pin.signals[j]).name
                != pin.signals[i].name,
        0 <= c < 17,
        slot(pin.signals[i].map) != Some(c),
    ensures
        !filter_column(filter, bucket(pin.signals, c)).contains(pin.signals[i].name),
{
    let name = pin.signals[i].name;
    let names = bucket(pin.signals, c);
    lemma_unmatched_row(filter, pin, c);
    if names.filter(kept(filter.excludes)).contains(name) {
        names.lemma_filter_contains_rev(kept(filter.excludes), name);
        lemma_bucket_members(pin.signals, c, name);
        let j = choose|j: int|
            0 <= j < pin.signals.len() && (#[trigger] pin.signals[j]).name == name && slot(
                pin.signals[j].map,
            ) == Some(c);
        assert(j != i);
    }
}

/// The row of a pin with one signal, whose name no substitution and no
/// exclusion matches: the name stands in the column of the signal's mapping,
/// and every other cell is empty.
pub proof fn lemma_lone_signal_row(filter: FilterModel, pin: PinModel, c: int)
    requires
        pin.signals.len() == 1,
        matched_by_none(filter.subs, pin.signals[0].name),
        !any_is_match(filter.excludes, pin.signals[0].name),
        0 <= c < 17,
    ensures
        af_row(filter, pin)[2 + c] == (if slot(pin.signals[0].map) == Some(c) {
            pin.signals[0].name
        } else {
            Seq::empty()
        }),
{
    let signals = pin.signals;
    let name = signals[0].name;
    reveal_with_fuel(Seq::filter, 2);
    reveal_with_fuel(join, 2);
    assert(signals.drop_last() =~= Seq::empty());
    assert(signals.last() == signals[0]);
    if slot(signals[0].map) == Some(c) {
        assert(signals.filter(in_slot(c)) =~= seq![signals[0]]);
        assert(bucket(signals, c) =~= seq![name]);
        lemma_substituted_unmatched(filter.subs, name);
        lemma_filter_lone(filter, name);
    } else {
        assert(signals.filter(in_slot(c)) =~= Seq::empty());
        assert(bucket(signals, c) =~= Seq::empty());
        lemma_filter_none(filter);
    }
}

} // verus!
