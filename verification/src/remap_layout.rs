//! The table of a part with remaps: a column for each category of signal
//! names that the part's pins show.

use crate::db::{PartInfo, PinInfo, PinModel, SignalInfo, SignalMap, SignalMapModel,
    SignalModel};
use crate::scan::lemma_filter_step;
use crate::table::{cell, filter_column, FilterModel, SignalFilter};
use crate::text::{ascending, byte_leq, chars_of, decimal_u8, find_char, first_index,
    insert_distinct, join, join_strings, lemma_ascending_unique, lemma_sorted_set,
    lemma_sorted_set_of, push_decimal_u8, sort_bytes, sorted_set, strictly_ascending};
use vstd::prelude::*;

verus! {

/// A byte in decimal, as a function value.
pub open spec fn decimal_of() -> spec_fn(u8) -> Seq<char> {
    |n: u8| decimal_u8(n)
}

/// The name under which a signal stands in the remap layout: for a signal
/// mapped by remap, its name and in parentheses its remap numbers in
/// ascending order, commas between them; else its name alone.
pub open spec fn remap_label(signal: SignalModel) -> Seq<char> {
    match signal.map {
        SignalMapModel::Remap(remaps) => signal.name + "("@ + join(
            ascending(remaps).map_values(decimal_of()),
            ","@,
        ) + ")"@,
        _ => signal.name,
    }
}

/// `remap_label` as a function value.
pub open spec fn label_of() -> spec_fn(SignalModel) -> Seq<char> {
    |signal: SignalModel| remap_label(signal)
}

/// The names that a pin shows in the remap layout: the labels of its signals,
/// filtered as one column.
pub open spec fn remap_names(filter: FilterModel, pin: PinModel) -> Seq<Seq<char>> {
    filter_column(filter, pin.signals.map_values(label_of()))
}

/// `remap_names` as a function of the pin alone.
pub open spec fn remap_names_of(filter: FilterModel) -> spec_fn(PinModel) -> Seq<Seq<char>> {
    |pin: PinModel| remap_names(filter, pin)
}

/// The category of a name: what stands before its first underscore, or all
/// of it.
pub open spec fn category(name: Seq<char>) -> Seq<char> {
    match first_index(name, '_') {
        Some(i) => name.take(i),
        None => name,
    }
}

/// `category` as a function value.
pub open spec fn category_of() -> spec_fn(Seq<char>) -> Seq<char> {
    |name: Seq<char>| category(name)
}

/// The test for a name of the category `c`.
pub open spec fn in_category(c: Seq<char>) -> spec_fn(Seq<char>) -> bool {
    |name: Seq<char>| category(name) == c
}

/// The categories of the names that the pins show, all pins together.
pub open spec fn categories(filter: FilterModel, pins: Seq<PinModel>) -> Set<Seq<char>>
    decreases pins.len(),
{
    if pins.len() == 0 {
        Set::empty()
    } else {
        categories(filter, pins.drop_last()) + remap_names(filter, pins.last()).map_values(
            category_of(),
        ).to_set()
    }
}

/// The cell of the category `c` of a pin that shows `names`.
pub open spec fn remap_cell(names: Seq<Seq<char>>) -> spec_fn(Seq<char>) -> Seq<char> {
    |c: Seq<char>| cell(names.filter(in_category(c)))
}

/// The row of a pin in the remap layout, whose columns are the categories
/// `columns`: name, position, and for each category the pin's names of it.
pub open spec fn remap_row(filter: FilterModel, columns: Seq<Seq<char>>, pin: PinModel) -> Seq<
    Seq<char>,
> {
    seq![pin.name, pin.position] + columns.map_values(remap_cell(remap_names(filter, pin)))
}

/// `remap_row` as a function of the pin alone.
pub open spec fn remap_row_of(filter: FilterModel, columns: Seq<Seq<char>>) -> spec_fn(
    PinModel,
) -> Seq<Seq<char>> {
    |pin: PinModel| remap_row(filter, columns, pin)
}

/// The rows of the remap layout, one for each pin; the columns after name and
/// position are the categories of all pins in ascending order.
pub open spec fn remap_rows(filter: FilterModel, pins: Seq<PinModel>) -> Seq<Seq<Seq<char>>> {
    pins.map_values(remap_row_of(filter, sorted_set(categories(filter, pins))))
}

/// The name under which a signal stands in the remap layout.
pub fn label(signal: &SignalInfo) -> (r: String)
    ensures
        r@ == remap_label(signal.deep_view()),
{
    match &signal.map {
        SignalMap::Remap(remaps) => {
            let sorted: Vec<u8> = sort_bytes(remaps);
            let ghost numbers = sorted@.map_values(decimal_of());
            let mut out: String = signal.name.clone();
            out.append("(");
            let mut k: usize = 0;
            assert(out@ =~= signal.name@ + "("@ + join(numbers.take(0), ","@));
            while k < sorted.len()
                invariant
                    k <= sorted.len(),
                    numbers == sorted@.map_values(decimal_of()),
                    out@ == signal.name@ + "("@ + join(numbers.take(k as int), ","@),
                decreases sorted.len() - k,
            {
                let ghost upto = numbers.take(k + 1);
                assert(upto.drop_last() == numbers.take(k as int));
                assert(upto.last() == decimal_u8(sorted[k as int]));
                if k > 0 {
                    out.append(",");
                }
                push_decimal_u8(&mut out, sorted[k]);
                assert(out@ =~= signal.name@ + "("@ + join(upto, ","@));
                k += 1;
            }
            assert(numbers.take(k as int) == numbers);
            out.append(")");
            out
        },
        _ => signal.name.clone(),
    }
}

/// The category of a name.
pub fn name_category(name: &str) -> (r: String)
    ensures
        r@ == category(name@),
{
    let chars: Vec<char> = chars_of(name);
    assert(chars@.skip(0) == chars@);
    match find_char(&chars, 0, '_') {
        Some(i) => String::from_str(name.substring_char(0, i)),
        None => String::from_str(name),
    }
}

/// The names that a pin shows in the remap layout.
fn pin_names_remap(pin: &PinInfo, filter: &SignalFilter) -> (r: Vec<String>)
    ensures
        r.deep_view() == remap_names(filter@, pin.deep_view()),
{
    let ghost signals = pin.signals.deep_view();
    let mut labels: Vec<String> = Vec::new();
    let mut k: usize = 0;
    assert(labels.deep_view() =~= signals.take(0).map_values(label_of()));
    while k < pin.signals.len()
        invariant
            k <= pin.signals.len(),
            signals == pin.signals.deep_view(),
            labels.deep_view() == signals.take(k as int).map_values(label_of()),
        decreases pin.signals.len() - k,
    {
        let text: String = label(&pin.signals[k]);
        let ghost before = labels.deep_view();
        labels.push(text);
        assert(signals[k as int] == pin.signals[k as int].deep_view());
        assert(labels.deep_view() =~= before.push(remap_label(signals[k as int])));
        assert(signals.take(k + 1).map_values(label_of()) =~= signals.take(k as int).map_values(
            label_of(),
        ).push(remap_label(signals[k as int])));
        k += 1;
    }
    assert(signals.take(k as int) == signals);
    filter.filter_column(&labels)
}

/// The names of `names` that are of the category `c`, joined into a cell.
fn category_cell(names: &Vec<String>, c: &String) -> (r: String)
    ensures
        r@ == remap_cell(names.deep_view())(c@),
{
    let ghost all = names.deep_view();
    let ghost q = in_category(c@);
    let mut found: Vec<String> = Vec::new();
    let mut k: usize = 0;
    proof {
        reveal(Seq::filter);
        assert(found.deep_view() =~= all.take(0).filter(q));
    }
    while k < names.len()
        invariant
            k <= names.len(),
            all == names.deep_view(),
            q == in_category(c@),
            found.deep_view() == all.take(k as int).filter(q),
        decreases names.len() - k,
    {
        proof {
            lemma_filter_step(all, q, k as int);
        }
        let own: String = name_category(names[k].as_str());
        if own == *c {
            let ghost before = found.deep_view();
            found.push(names[k].clone());
            assert(found.deep_view() =~= before.push(names[k as int]@));
        }
        k += 1;
    }
    assert(all.take(k as int) == all);
    join_strings(&found, " ")
}

/// Produce a pin out table for Remap based parts: a row for each pin, with a
/// column for each category in ascending order.
pub fn write_pin_out_remap(part_info: &PartInfo, filter: &SignalFilter) -> (r: Vec<Vec<String>>)
    ensures
        r.deep_view() == remap_rows(filter@, part_info.deep_view().pins),
{
    let ghost pins = part_info.pins.deep_view();
    let ghost names_of = remap_names_of(filter@);
    let mut lines: Vec<Vec<String>> = Vec::new();
    let mut allcats: Vec<String> = Vec::new();
    let mut k: usize = 0;
    assert(lines.deep_view() =~= pins.take(0).map_values(names_of));
    assert(allcats.deep_view().to_set() =~= categories(filter@, pins.take(0)));
    while k < part_info.pins.len()
        invariant
            k <= part_info.pins.len(),
            pins == part_info.pins.deep_view(),
            names_of == remap_names_of(filter@),
            lines.deep_view() == pins.take(k as int).map_values(names_of),
            strictly_ascending(allcats.deep_view()),
            allcats.deep_view().to_set() == categories(filter@, pins.take(k as int)),
        decreases part_info.pins.len() - k,
    {
        let signals: Vec<String> = pin_names_remap(&part_info.pins[k], filter);
        let ghost names = signals.deep_view();
        let ghost cats = names.map_values(category_of());
        let ghost earlier = categories(filter@, pins.take(k as int));
        proof {
            assert(pins[k as int] == part_info.pins[k as int].deep_view());
            assert(pins.take(k + 1).drop_last() == pins.take(k as int));
            assert(pins.take(k + 1).last() == pins[k as int]);
            assert(categories(filter@, pins.take(k + 1)) == earlier + cats.to_set());
        }
        let mut j: usize = 0;
        assert(cats.take(0).to_set() =~= Set::empty());
        assert(earlier + cats.take(0).to_set() =~= earlier);
        while j < signals.len()
            invariant
                j <= signals.len(),
                names == signals.deep_view(),
                cats == names.map_values(category_of()),
                strictly_ascending(allcats.deep_view()),
                allcats.deep_view().to_set() == earlier + cats.take(j as int).to_set(),
            decreases signals.len() - j,
        {
            let cat: String = name_category(signals[j].as_str());
            proof {
                assert(cats[j as int] == cat@);
                assert(cats.take(j + 1) == cats.take(j as int).push(cat@));
                cats.take(j as int).lemma_push_to_set_commute(cat@);
                assert((earlier + cats.take(j as int).to_set()).insert(cat@) =~= earlier
                    + cats.take(j as int).to_set().insert(cat@));
            }
            insert_distinct(&mut allcats, cat);
            j += 1;
        }
        assert(cats.take(j as int) == cats);
        let ghost before = lines.deep_view();
        lines.push(signals);
        assert(lines.deep_view() =~= before.push(names_of(pins[k as int])));
        assert(pins.take(k + 1).map_values(names_of) =~= pins.take(k as int).map_values(
            names_of,
        ).push(names_of(pins[k as int])));
        k += 1;
    }
    assert(pins.take(k as int) == pins);
    let ghost columns = allcats.deep_view();
    proof {
        lemma_sorted_set_of(columns);
    }
    let ghost f = remap_row_of(filter@, columns);
    let mut rows: Vec<Vec<String>> = Vec::new();
    let mut k: usize = 0;
    assert(rows.deep_view() =~= pins.take(0).map_values(f));
    while k < part_info.pins.len()
        invariant
            k <= part_info.pins.len(),
            part_info.pins.len() == lines.len(),
            pins == part_info.pins.deep_view(),
            columns == allcats.deep_view(),
            f == remap_row_of(filter@, columns),
            names_of == remap_names_of(filter@),
            lines.deep_view() == pins.map_values(names_of),
            rows.deep_view() == pins.take(k as int).map_values(f),
        decreases part_info.pins.len() - k,
    {
        let pin: &PinInfo = &part_info.pins[k];
        let names: &Vec<String> = &lines[k];
        assert(pins[k as int] == pin.deep_view());
        assert(names.deep_view() == lines.deep_view()[k as int]);
        assert(names.deep_view() == remap_names(filter@, pins[k as int]));
        let ghost g = remap_cell(names.deep_view());
        let mut row: Vec<String> = Vec::new();
        row.push(pin.name.clone());
        row.push(pin.position.clone());
        let mut c: usize = 0;
        assert(row.deep_view() =~= seq![pin.name@, pin.position@] + columns.take(0).map_values(g));
        while c < allcats.len()
            invariant
                c <= allcats.len(),
                columns == allcats.deep_view(),
                g == remap_cell(names.deep_view()),
                row.deep_view() == seq![pin.name@, pin.position@] + columns.take(
                    c as int,
                ).map_values(g),
            decreases allcats.len() - c,
        {
            let text: String = category_cell(names, &allcats[c]);
            let ghost before = row.deep_view();
            row.push(text);
            assert(columns[c as int] == allcats[c as int]@);
            assert(row.deep_view() =~= before.push(g(columns[c as int])));
            assert(seq![pin.name@, pin.position@] + columns.take(c + 1).map_values(g) =~= (seq![
                pin.name@,
                pin.position@,
            ] + columns.take(c as int).map_values(g)).push(g(columns[c as int])));
            c += 1;
        }
        assert(columns.take(c as int) == columns);
        let ghost before = rows.deep_view();
        rows.push(row);
        assert(rows.deep_view() =~= before.push(f(pins[k as int])));
        assert(pins.take(k + 1).map_values(f) =~= pins.take(k as int).map_values(f).push(
            f(pins[k as int]),
        ));
        k += 1;
    }
    assert(pins.take(k as int) == pins);
    rows
}

/// The label of a signal mapped by remap lists the remap numbers in ascending
/// order, whatever the order in which the descriptor gives them.
pub proof fn lemma_remap_label_order(name: Seq<char>, first: Seq<u8>, second: Seq<u8>)
    requires
        first.to_multiset() == second.to_multiset(),
    ensures
        vstd::relations::sorted_by(ascending(first), byte_leq()),
        ascending(first).to_multiset() == first.to_multiset(),
        remap_label(SignalModel { name, map: SignalMapModel::Remap(first) }) == remap_label(
            SignalModel { name, map: SignalMapModel::Remap(second) },
        ),
{
    assert(vstd::relations::total_ordering(byte_leq()));
    first.lemma_sort_by_ensures(byte_leq());
    lemma_ascending_unique(second, ascending(first));
}

/// The row of a pin in the remap layout has a cell for the name, one for the
/// position, and at place `2 + c` the pin's names of the category
/// `columns[c]`.
pub proof fn lemma_remap_row_cells(
    filter: FilterModel,
    columns: Seq<Seq<char>>,
    pin: PinModel,
    c: int,
)
    requires
        0 <= c < columns.len(),
    ensures
        remap_row(filter, columns, pin).len() == 2 + columns.len(),
        remap_row(filter, columns, pin)[0] == pin.name,
        remap_row(filter, columns, pin)[1] == pin.position,
        remap_row(filter, columns, pin)[2 + c] == cell(
            remap_names(filter, pin).filter(in_category(columns[c])),
        ),
{
}

/// A category belongs to the pins exactly where it is the category of a name
/// that one of the pins shows.
pub proof fn lemma_categories_members(filter: FilterModel, pins: Seq<PinModel>, c: Seq<char>)
    ensures
        categories(filter, pins).contains(c) <==> exists|i: int, j: int|
            0 <= i < pins.len() && 0 <= j < remap_names(filter, pins[i]).len() && category(
                #[trigger] remap_names(filter, pins[i])[j],
            ) == c,
    decreases pins.len(),
{
    if pins.len() > 0 {
        let front = pins.drop_last();
        let names = remap_names(filter, pins.last());
        let cats = names.map_values(category_of());
        lemma_categories_members(filter, front, c);
        if categories(filter, pins).contains(c) {
            if categories(filter, front).contains(c) {
                let (i, j) = choose|i: int, j: int|
                    0 <= i < front.len() && 0 <= j < remap_names(filter, front[i]).len()
                        && category(#[trigger] remap_names(filter, front[i])[j]) == c;
                assert(pins[i] == front[i]);
                assert(category(remap_names(filter, pins[i])[j]) == c);
            } else {
                assert(cats.contains(c));
                let j = choose|j: int| 0 <= j < cats.len() && cats[j] == c;
                assert(category(remap_names(filter, pins[pins.len() - 1])[j]) == c);
            }
        }
        if exists|i: int, j: int|
            0 <= i < pins.len() && 0 <= j < remap_names(filter, pins[i]).len() && category(
                #[trigger] remap_names(filter, pins[i])[j],
            ) == c {
            let (i, j) = choose|i: int, j: int|
                0 <= i < pins.len() && 0 <= j < remap_names(filter, pins[i]).len() && category(
                    #[trigger] remap_names(filter, pins[i])[j],
                ) == c;
            if i < front.len() {
                assert(front[i] == pins[i]);
                assert(category(remap_names(filter, front[i])[j]) == c);
                assert(categories(filter, front).contains(c));
            } else {
                assert(cats[j] == c);
                assert(cats.contains(c));
            }
        }
    }
}

/// The pins have finitely many categories.
pub proof fn lemma_categories_finite(filter: FilterModel, pins: Seq<PinModel>)
    ensures
        categories(filter, pins).finite(),
    decreases pins.len(),
{
    if pins.len() > 0 {
        lemma_categories_finite(filter, pins.drop_last());
        vstd::seq_lib::seq_to_set_is_finite(
            remap_names(filter, pins.last()).map_values(category_of()),
        );
    }
}

/// The columns of the remap layout ascend strictly, and they are the
/// categories of the names that the pins show, no more and no fewer.
pub proof fn lemma_remap_columns(filter: FilterModel, pins: Seq<PinModel>)
    ensures
        strictly_ascending(sorted_set(categories(filter, pins))),
        sorted_set(categories(filter, pins)).to_set() == categories(filter, pins),
{
    lemma_categories_finite(filter, pins);
    lemma_sorted_set(categories(filter, pins));
}

} // verus!
