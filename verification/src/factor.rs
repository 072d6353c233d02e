//! Factorization: merging the names that a pattern matches and that differ
//! in the pattern's first capture group only.

use crate::pattern::{regex_first_group, Pattern};
use crate::text::{join, join_strings};
use vstd::prelude::*;

verus! {

/// One name as a factorization sees it.
#[derive(Debug)]
pub enum Piece {
    /// A name that the pattern does not match.
    Whole(String),
    /// A name that the pattern matches, cut at the first capture group.
    Split {
        /// What stands before the group.
        before: String,
        /// The group: the part in which merged names differ.
        term: String,
        /// What stands after the group.
        after: String,
    },
}

/// A `Piece` with its strings as sequences of characters.
pub enum PieceModel {
    Whole(Seq<char>),
    Split { before: Seq<char>, term: Seq<char>, after: Seq<char> },
}

impl DeepView for Piece {
    type V = PieceModel;

    open spec fn deep_view(&self) -> PieceModel {
        match self {
            Piece::Whole(name) => PieceModel::Whole(name@),
            Piece::Split { before, term, after } => PieceModel::Split {
                before: before@,
                term: term@,
                after: after@,
            },
        }
    }
}

/// The names that share what stands around the group, while they are merged.
struct Group {
    before: String,
    after: String,
    terms: Vec<String>,
}

/// How the regex compiled from `pattern` cuts `name`: into the three pieces
/// around the first capture group of the leftmost match, which make up the
/// name; a name without a match stays whole.
pub open spec fn piece_of(pattern: Seq<char>, name: Seq<char>) -> PieceModel {
    match regex_first_group(pattern, name) {
        Some(Some((before, term, after))) if before + term + after == name => PieceModel::Split {
            before,
            term,
            after,
        },
        _ => PieceModel::Whole(name),
    }
}

/// Wherever the regex compiled from `pattern` matches one of `names`, its
/// first capture group takes part in the match.
pub open spec fn group_takes_part(pattern: Seq<char>, names: Seq<Seq<char>>) -> bool {
    forall|i: int|
        0 <= i < names.len() ==> regex_first_group(pattern, #[trigger] names[i]) != Some(
            None::<(Seq<char>, Seq<char>, Seq<char>)>,
        )
}

/// `piece_of` as a function of the name alone.
pub open spec fn piece_by(pattern: Seq<char>) -> spec_fn(Seq<char>) -> PieceModel {
    |name: Seq<char>| piece_of(pattern, name)
}

/// What stands around the group of each split name, each pair once, in the
/// order in which the pairs first occur.
pub open spec fn outers(pieces: Seq<PieceModel>) -> Seq<(Seq<char>, Seq<char>)>
    decreases pieces.len(),
{
    if pieces.len() == 0 {
        Seq::empty()
    } else {
        let found = outers(pieces.drop_last());
        match pieces.last() {
            PieceModel::Split { before, term, after } if !found.contains((before, after)) => {
                found.push((before, after))
            },
            _ => found,
        }
    }
}

/// The groups of the split names that stand within `outer`, in order.
pub open spec fn terms_within(pieces: Seq<PieceModel>, outer: (Seq<char>, Seq<char>)) -> Seq<
    Seq<char>,
>
    decreases pieces.len(),
{
    if pieces.len() == 0 {
        Seq::empty()
    } else {
        let found = terms_within(pieces.drop_last(), outer);
        match pieces.last() {
            PieceModel::Split { before, term, after } if (before, after) == outer => found.push(
                term,
            ),
            _ => found,
        }
    }
}

/// The names that the pattern does not match, in order.
pub open spec fn wholes(pieces: Seq<PieceModel>) -> Seq<Seq<char>>
    decreases pieces.len(),
{
    if pieces.len() == 0 {
        Seq::empty()
    } else {
        let found = wholes(pieces.drop_last());
        match pieces.last() {
            PieceModel::Whole(name) => found.push(name),
            _ => found,
        }
    }
}

/// The one name that stands for all split names within `outer`: their
/// groups, joined by `sep`, put back between the two outer parts.
pub open spec fn merged_name(pieces: Seq<PieceModel>, sep: Seq<char>) -> spec_fn(
    (Seq<char>, Seq<char>),
) -> Seq<char> {
    |outer: (Seq<char>, Seq<char>)| outer.0 + join(terms_within(pieces, outer), sep) + outer.1
}

/// The names after one factorization: one merged name for each pair of outer
/// parts, in the order in which the pairs first occur, and after them the
/// names that the pattern does not match.
pub open spec fn factorized(pieces: Seq<PieceModel>, sep: Seq<char>) -> Seq<Seq<char>> {
    outers(pieces).map_values(merged_name(pieces, sep)) + wholes(pieces)
}

/// No pair of outer parts is listed twice.
pub proof fn lemma_outers_distinct(pieces: Seq<PieceModel>)
    ensures
        outers(pieces).no_duplicates(),
    decreases pieces.len(),
{
    if pieces.len() > 0 {
        lemma_outers_distinct(pieces.drop_last());
    }
}

/// Outer parts that are not listed hold no group.
pub proof fn lemma_terms_of_unlisted(pieces: Seq<PieceModel>, outer: (Seq<char>, Seq<char>))
    requires
        !outers(pieces).contains(outer),
    ensures
        terms_within(pieces, outer) == Seq::<Seq<char>>::empty(),
    decreases pieces.len(),
{
    if pieces.len() > 0 {
        let found = outers(pieces.drop_last());
        if found.contains(outer) {
            let i = choose|i: int| 0 <= i < found.len() && found[i] == outer;
            assert(outers(pieces)[i] == outer);
        }
        lemma_terms_of_unlisted(pieces.drop_last(), outer);
        match pieces.last() {
            PieceModel::Split { before, term, after } => {
                if (before, after) == outer {
                    if found.contains(outer) {
                    } else {
                        assert(outers(pieces) == found.push(outer));
                        assert(outers(pieces)[found.len() as int] == outer);
                    }
                }
            },
            _ => {},
        }
    }
}

/// Merges the split names that stand within the same outer parts.
pub fn factorize_pieces(pieces: &Vec<Piece>, sep: &str) -> (r: Vec<String>)
    ensures
        r.deep_view() == factorized(pieces.deep_view(), sep@),
{
    let ghost all = pieces.deep_view();
    let mut others: Vec<String> = Vec::new();
    let mut groups: Vec<Group> = Vec::new();
    let mut k: usize = 0;
    assert(others.deep_view() =~= Seq::empty());
    while k < pieces.len()
        invariant
            k <= pieces.len(),
            all == pieces.deep_view(),
            others.deep_view() == wholes(all.take(k as int)),
            groups.len() == outers(all.take(k as int)).len(),
            forall|g: int|
                0 <= g < groups.len() ==> {
                    let outer = #[trigger] outers(all.take(k as int))[g];
                    &&& groups[g].before@ == outer.0
                    &&& groups[g].after@ == outer.1
                    &&& groups[g].terms.deep_view() == terms_within(all.take(k as int), outer)
                },
        decreases pieces.len() - k,
    {
        let ghost done = all.take(k as int);
        let ghost upto = all.take(k + 1);
        proof {
            assert(upto.drop_last() == done);
            assert(upto.last() == pieces[k as int].deep_view());
            lemma_outers_distinct(done);
            lemma_outers_distinct(upto);
        }
        match &pieces[k] {
            Piece::Whole(name) => {
                let ghost before = others.deep_view();
                others.push(name.clone());
                assert(others.deep_view() =~= before.push(name@));
                assert(outers(upto) == outers(done));
                assert forall|g: int| 0 <= g < groups.len() implies terms_within(
                    upto,
                    #[trigger] outers(upto)[g],
                ) == terms_within(done, outers(done)[g]) by {}
            },
            Piece::Split { before, term, after } => {
                let ghost outer = (before@, after@);
                let mut g: usize = 0;
                while g < groups.len() && !(groups[g].before == *before && groups[g].after
                    == *after)
                    invariant
                        g <= groups.len(),
                        groups.len() == outers(done).len(),
                        outer == (before@, after@),
                        forall|h: int|
                            0 <= h < groups.len() ==> {
                                let o = #[trigger] outers(done)[h];
                                &&& groups[h].before@ == o.0
                                &&& groups[h].after@ == o.1
                            },
                        forall|h: int| 0 <= h < g ==> (#[trigger] outers(done)[h]) != outer,
                    decreases groups.len() - g,
                {
                    g += 1;
                }
                if g < groups.len() {
                    proof {
                        assert(outers(done)[g as int] == outer);
                        assert(outers(done).contains(outer));
                        assert(outers(upto) == outers(done));
                    }
                    let ghost old_terms = groups[g as int].terms.deep_view();
                    let ghost old_groups = groups@;
                    let mut group: Group = groups.remove(g);
                    group.terms.push(term.clone());
                    assert(group.terms.deep_view() =~= old_terms.push(term@));
                    groups.insert(g, group);
                    assert forall|h: int| 0 <= h < groups.len() implies {
                        let o = #[trigger] outers(upto)[h];
                        &&& groups[h].before@ == o.0
                        &&& groups[h].after@ == o.1
                        &&& groups[h].terms.deep_view() == terms_within(upto, o)
                    } by {
                        let o = outers(done)[h];
                        if h != g {
                            assert(groups[h] == old_groups[h]);
                            assert(o != outer);
                        }
                    }
                } else {
                    proof {
                        assert(!outers(done).contains(outer));
                        lemma_terms_of_unlisted(done, outer);
                        assert(outers(upto) == outers(done).push(outer));
                    }
                    let mut terms: Vec<String> = Vec::new();
                    terms.push(term.clone());
                    assert(terms.deep_view() =~= seq![term@]);
                    let ghost old_groups = groups@;
                    groups.push(Group { before: before.clone(), after: after.clone(), terms });
                    assert forall|h: int| 0 <= h < groups.len() implies {
                        let o = #[trigger] outers(upto)[h];
                        &&& groups[h].before@ == o.0
                        &&& groups[h].after@ == o.1
                        &&& groups[h].terms.deep_view() == terms_within(upto, o)
                    } by {
                        if h < old_groups.len() {
                            let o = outers(done)[h];
                            assert(groups[h] == old_groups[h]);
                            assert(outers(done).contains(o));
                            assert(o != outer);
                        }
                    }
                }
                assert(wholes(upto) == wholes(done));
            },
        }
        k += 1;
    }
    assert(all.take(k as int) == all);
    let ghost f = merged_name(all, sep@);
    let mut out: Vec<String> = Vec::new();
    let mut g: usize = 0;
    assert(out.deep_view() =~= outers(all).take(0).map_values(f));
    while g < groups.len()
        invariant
            g <= groups.len(),
            f == merged_name(all, sep@),
            groups.len() == outers(all).len(),
            forall|h: int|
                0 <= h < groups.len() ==> {
                    let outer = #[trigger] outers(all)[h];
                    &&& groups[h].before@ == outer.0
                    &&& groups[h].after@ == outer.1
                    &&& groups[h].terms.deep_view() == terms_within(all, outer)
                },
            out.deep_view() == outers(all).take(g as int).map_values(f),
        decreases groups.len() - g,
    {
        let ghost outer = outers(all)[g as int];
        let mut name: String = groups[g].before.clone();
        let terms: String = join_strings(&groups[g].terms, sep);
        name.append(terms.as_str());
        name.append(groups[g].after.as_str());
        assert(name@ == f(outer));
        let ghost before = out.deep_view();
        out.push(name);
        assert(out.deep_view() =~= before.push(f(outer)));
        assert(outers(all).take(g + 1).map_values(f) =~= outers(all).take(g as int).map_values(
            f,
        ).push(f(outer)));
        g += 1;
    }
    assert(outers(all).take(g as int) == outers(all));
    let ghost merged = out.deep_view();
    let mut k: usize = 0;
    while k < others.len()
        invariant
            k <= others.len(),
            out.deep_view() == merged + others.deep_view().take(k as int),
        decreases others.len() - k,
    {
        let ghost before = out.deep_view();
        out.push(others[k].clone());
        assert(out.deep_view() =~= before.push(others[k as int]@));
        assert(merged + others.deep_view().take(k + 1) =~= (merged + others.deep_view().take(
            k as int,
        )).push(others[k as int]@));
        k += 1;
    }
    assert(others.deep_view().take(k as int) == others.deep_view());
    out
}

/// For a given list of names, match each with the given regex; the names
/// that match and differ in the first group only are merged into one. The
/// first group must take part in every match.
pub fn factorize(names: &Vec<String>, re: &Pattern, sep: &str) -> (r: Vec<String>)
    requires
        group_takes_part(re.source(), names.deep_view()),
    ensures
        r.deep_view() == factorized(names.deep_view().map_values(piece_by(re.source())), sep@),
{
    let ghost f = piece_by(re.source());
    let mut pieces: Vec<Piece> = Vec::new();
    let mut k: usize = 0;
    assert(pieces.deep_view() =~= names.deep_view().take(0).map_values(f));
    while k < names.len()
        invariant
            k <= names.len(),
            f == piece_by(re.source()),
            group_takes_part(re.source(), names.deep_view()),
            pieces.deep_view() == names.deep_view().take(k as int).map_values(f),
        decreases names.len() - k,
    {
        assert(names.deep_view()[k as int] == names[k as int]@);
        let piece: Piece = match re.first_group(names[k].as_str()) {
            Some(Some((before, term, after))) => Piece::Split { before, term, after },
            Some(None) => unreached(),
            None => Piece::Whole(names[k].clone()),
        };
        assert(piece.deep_view() == f(names[k as int]@));
        let ghost before = pieces.deep_view();
        pieces.push(piece);
        assert(pieces.deep_view() =~= before.push(f(names[k as int]@)));
        assert(names.deep_view().take(k + 1).map_values(f) =~= names.deep_view().take(
            k as int,
        ).map_values(f).push(f(names[k as int]@)));
        k += 1;
    }
    assert(names.deep_view().take(k as int) == names.deep_view());
    factorize_pieces(&pieces, sep)
}

/// `factorize`, for any pattern: `None` where the pattern matches one of the
/// names without its first group.
pub fn try_factorize(names: &Vec<String>, re: &Pattern, sep: &str) -> (r: Option<Vec<String>>)
    ensures
        r is Some == group_takes_part(re.source(), names.deep_view()),
        r matches Some(out) ==> out.deep_view() == factorized(
            names.deep_view().map_values(piece_by(re.source())),
            sep@,
        ),
{
    let mut k: usize = 0;
    while k < names.len()
        invariant
            k <= names.len(),
            group_takes_part(re.source(), names.deep_view().take(k as int)),
        decreases names.len() - k,
    {
        assert(names.deep_view()[k as int] == names[k as int]@);
        match re.first_group(names[k].as_str()) {
            Some(None) => {
                return None;
            },
            _ => {},
        }
        assert forall|i: int| 0 <= i < k + 1 implies regex_first_group(
            re.source(),
            #[trigger] names.deep_view().take(k + 1)[i],
        ) != Some(None::<(Seq<char>, Seq<char>, Seq<char>)>) by {
            if i < k {
                assert(names.deep_view().take(k as int)[i] == names.deep_view().take(k + 1)[i]);
            }
        }
        k += 1;
    }
    assert(names.deep_view().take(k as int) == names.deep_view());
    Some(factorize(names, re, sep))
}

/// A name that stands alone comes out of a factorization as it went in.
pub proof fn lemma_factorized_one(pattern: Seq<char>, name: Seq<char>, sep: Seq<char>)
    ensures
        factorized(seq![name].map_values(piece_by(pattern)), sep) == seq![name],
{
    let pieces = seq![name].map_values(piece_by(pattern));
    assert(pieces =~= seq![piece_of(pattern, name)]);
    assert(pieces.drop_last() =~= Seq::empty());
    assert(pieces.last() == piece_of(pattern, name));
    reveal_with_fuel(outers, 2);
    reveal_with_fuel(wholes, 2);
    reveal_with_fuel(terms_within, 2);
    reveal_with_fuel(join, 2);
    match piece_of(pattern, name) {
        PieceModel::Whole(n) => {
            assert(outers(pieces) =~= Seq::empty());
            assert(wholes(pieces) =~= seq![name]);
            assert(factorized(pieces, sep) =~= seq![name]);
        },
        PieceModel::Split { before, term, after } => {
            assert(before + term + after == name);
            assert(outers(pieces) =~= seq![(before, after)]);
            assert(wholes(pieces) =~= Seq::empty());
            assert(terms_within(pieces, (before, after)) =~= seq![term]);
            assert(join(seq![term], sep) =~= term);
            assert(factorized(pieces, sep) =~= seq![name]);
        },
    }
}

/// Names that the pattern does not match come out of a factorization as they
/// went in, and in their order.
pub proof fn lemma_factorized_unmatched(pattern: Seq<char>, names: Seq<Seq<char>>, sep: Seq<char>)
    requires
        forall|i: int|
            0 <= i < names.len() ==> regex_first_group(pattern, #[trigger] names[i]) is None,
    ensures
        outers(names.map_values(piece_by(pattern))) == Seq::<(Seq<char>, Seq<char>)>::empty(),
        wholes(names.map_values(piece_by(pattern))) == names,
        factorized(names.map_values(piece_by(pattern)), sep) == names,
    decreases names.len(),
{
    let pieces = names.map_values(piece_by(pattern));
    if names.len() > 0 {
        let front = names.drop_last();
        assert forall|i: int| 0 <= i < front.len() implies regex_first_group(
            pattern,
            #[trigger] front[i],
        ) is None by {
            assert(front[i] == names[i]);
        }
        lemma_factorized_unmatched(pattern, front, sep);
        assert(pieces.drop_last() =~= front.map_values(piece_by(pattern)));
        assert(regex_first_group(pattern, names[names.len() - 1]) is None);
        assert(pieces.last() == PieceModel::Whole(names.last()));
        assert(wholes(pieces) =~= names);
    }
    assert(factorized(pieces, sep) =~= names);
}

/// A name that the pattern does not match stays in the list through a
/// factorization, whatever becomes of the other names.
pub proof fn lemma_factorized_keeps(
    pattern: Seq<char>,
    names: Seq<Seq<char>>,
    sep: Seq<char>,
    name: Seq<char>,
)
    requires
        names.contains(name),
        regex_first_group(pattern, name) is None,
    ensures
        factorized(names.map_values(piece_by(pattern)), sep).contains(name),
    decreases names.len(),
{
    let pieces = names.map_values(piece_by(pattern));
    assert(wholes(pieces).contains(name)) by {
        lemma_wholes_keep(pattern, names, name);
    }
    let i = choose|i: int| 0 <= i < wholes(pieces).len() && wholes(pieces)[i] == name;
    let out = factorized(pieces, sep);
    assert(out[outers(pieces).len() + i] == name);
}

/// A name that the pattern does not match is among the names left whole.
pub proof fn lemma_wholes_keep(pattern: Seq<char>, names: Seq<Seq<char>>, name: Seq<char>)
    requires
        names.contains(name),
        regex_first_group(pattern, name) is None,
    ensures
        wholes(names.map_values(piece_by(pattern))).contains(name),
    decreases names.len(),
{
    let pieces = names.map_values(piece_by(pattern));
    let front = names.drop_last();
    assert(pieces.drop_last() =~= front.map_values(piece_by(pattern)));
    assert(pieces.last() == piece_of(pattern, names.last()));
    if names.last() == name {
        let w = wholes(pieces);
        assert(w == wholes(pieces.drop_last()).push(name));
        assert(w[w.len() - 1] == name);
    } else {
        let i = choose|i: int| 0 <= i < names.len() && names[i] == name;
        assert(front[i] == name);
        lemma_wholes_keep(pattern, front, name);
        let w = wholes(front.map_values(piece_by(pattern)));
        let j = choose|j: int| 0 <= j < w.len() && w[j] == name;
        assert(wholes(pieces)[j] == name);
    }
}

} // verus!
