//! The pin-out table: the filter that shortens, merges and drops signal
//! names, and the table of a part as rows and as CSV.

use crate::af_layout::{af_rows, any_remap, has_remap, write_pin_out_af};
use crate::db::{of_mode, slots_in_range, uniform, GpioMode, PartInfo, PartModel};
use crate::error::{Failure, FailureModel};
use crate::factor::{factorized, group_takes_part, lemma_factorized_keeps, lemma_factorized_one,
    lemma_factorized_unmatched, piece_by, try_factorize};
use crate::pattern::{any_is_match, regex_first_group, regex_is_match, regex_refusal,
    regex_replaced, regex_set_refusal, Pattern, PatternSet};
use crate::remap_layout::{remap_rows, write_pin_out_remap};
use crate::scan::{least, lemma_filter_step, lemma_least_absent, lemma_least_found, result_model};
use crate::text::join;
use vstd::prelude::*;

verus! {

/// Filter signals to reduce pin out table size.
pub struct SignalFilter {
    /// Signals to exclude from table.
    excludes: PatternSet,
    /// Substitutions to shorten signal names.
    subs: Vec<Pattern>,
    /// Factorizations to reduce the number of similar signals, with the
    /// associated separator.
    facts_sep: Vec<(Pattern, &'static str)>,
}

/// A `SignalFilter` by the patterns that its regexes were compiled from.
pub struct FilterModel {
    pub excludes: Seq<Seq<char>>,
    pub subs: Seq<Seq<char>>,
    pub facts_sep: Seq<(Seq<char>, Seq<char>)>,
}

impl View for SignalFilter {
    type V = FilterModel;

    closed spec fn view(&self) -> FilterModel {
        FilterModel {
            excludes: self.excludes.sources(),
            subs: self.subs@.map_values(|re: Pattern| re.source()),
            facts_sep: self.facts_sep@.map_values(
                |fact: (Pattern, &'static str)| (fact.0.source(), fact.1@),
            ),
        }
    }
}

/// The pattern that drops the names beginning with what `fragment` matches,
/// a digit or an underscore following.
pub open spec fn exclusion_pattern(fragment: Seq<char>) -> Seq<char> {
    "^(?:"@ + fragment + ")[0-9_]"@
}

/// `exclusion_pattern` as a function value.
pub open spec fn exclusion_of() -> spec_fn(Seq<char>) -> Seq<char> {
    |fragment: Seq<char>| exclusion_pattern(fragment)
}

/// The pattern of a substitution: `prefix` at the start of a name, a digit or
/// an underscore following.
pub open spec fn substitution_pattern(prefix: Seq<char>) -> Seq<char> {
    "^"@ + prefix + "([0-9_])"@
}

/// `substitution_pattern` as a function value.
pub open spec fn substitution_of() -> spec_fn(Seq<char>) -> Seq<char> {
    |prefix: Seq<char>| substitution_pattern(prefix)
}

/// The prefixes that the substitutions shorten, each with the part that is
/// kept in its capture group, in the order in which they are applied.
pub open spec fn substitution_prefixes() -> Seq<Seq<char>> {
    seq![
        "((?:HR|LP)?T)IM"@,
        "((?:LP)?U)S?ART"@,
        "(D)FSDM"@,
        "(F)S?MC"@,
        "(Q)UADSPI(?:_BK)?"@,
        "(S)PI"@,
        "(SW)PMI"@,
        "I2(S)"@,
        "(SD)MMC"@,
        "(SP)DIFRX"@,
        "FD(C)AN"@,
        "USB_OTG_([FH]S)"@,
        r"(T\d_B)KIN"@,
    ]
}

/// The factorizations, each a pattern whose first capture group is the part
/// in which the merged names differ, with the separator that joins those
/// parts; in the order in which they are applied.
pub open spec fn factorizations() -> Seq<(Seq<char>, Seq<char>)> {
    seq![
        (r"T\d_B\d?_COMP(\d+)"@, ""@),
        (r"ADC(\d)_IN[NP]?\d+"@, ""@),
        (r"ADC\d+_IN([NP]?\d+)"@, ""@),
        (r"[SUT]\d_(.+)"@, "/"@),
    ]
}

/// The filter for the exclusion fragments `exclude`.
pub open spec fn filter_for(exclude: Seq<Seq<char>>) -> FilterModel {
    FilterModel {
        excludes: exclude.map_values(exclusion_of()),
        subs: substitution_prefixes().map_values(substitution_of()),
        facts_sep: factorizations(),
    }
}

/// The test for a pattern, by its place in `patterns`, that `Regex::new`
/// refuses.
pub open spec fn refused(patterns: Seq<Seq<char>>) -> spec_fn(int) -> bool {
    |i: int| regex_refusal(patterns[i]) is Some
}

/// The words with which the first of `patterns` that `Regex::new` refuses is
/// refused.
pub open spec fn first_refusal(patterns: Seq<Seq<char>>) -> Option<Seq<char>> {
    match least(0, patterns.len() as int, refused(patterns)) {
        Some(i) => regex_refusal(patterns[i]),
        None => None,
    }
}

/// The pattern of a factorization.
pub open spec fn pattern_of() -> spec_fn((Seq<char>, Seq<char>)) -> Seq<char> {
    |fact: (Seq<char>, Seq<char>)| fact.0
}

/// The words with which the `regex` crate refuses the filter: those for the
/// exclusions as a set, else those for the first substitution that it
/// refuses, else those for the first factorization; `None` where it accepts
/// every pattern.
pub open spec fn filter_refusal(filter: FilterModel) -> Option<Seq<char>> {
    match regex_set_refusal(filter.excludes) {
        Some(words) => Some(words),
        None => match first_refusal(filter.subs) {
            Some(words) => Some(words),
            None => first_refusal(filter.facts_sep.map_values(pattern_of())),
        },
    }
}

/// Whether the `regex` crate accepts every pattern of the filter.
pub open spec fn filter_compiles(filter: FilterModel) -> bool {
    filter_refusal(filter) is None
}

/// The prefixes of the substitutions.
fn substitution_rules() -> (r: Vec<&'static str>)
    ensures
        r.deep_view() == substitution_prefixes(),
{
    let r: Vec<&'static str> = vec![
        "((?:HR|LP)?T)IM",
        "((?:LP)?U)S?ART",
        "(D)FSDM",
        "(F)S?MC",
        "(Q)UADSPI(?:_BK)?",
        "(S)PI",
        "(SW)PMI",
        "I2(S)",
        "(SD)MMC",
        "(SP)DIFRX",
        "FD(C)AN",
        "USB_OTG_([FH]S)",
        r"(T\d_B)KIN",
    ];
    assert(r.deep_view() =~= substitution_prefixes());
    r
}

/// The factorizations.
fn factorization_rules() -> (r: Vec<(&'static str, &'static str)>)
    ensures
        r.deep_view() == factorizations(),
{
    let r: Vec<(&'static str, &'static str)> = vec![
        (r"T\d_B\d?_COMP(\d+)", ""),
        (r"ADC(\d)_IN[NP]?\d+", ""),
        (r"ADC\d+_IN([NP]?\d+)", ""),
        (r"[SUT]\d_(.+)", "/"),
    ];
    assert(r.deep_view() =~= factorizations());
    r
}

impl SignalFilter {
    /// Prepare a new filter, which drops the names that begin with what one
    /// of the fragments `exclude` matches. It fails where the `regex` crate
    /// refuses a fragment, or a pattern of the filter's own.
    pub fn new(exclude: &Vec<String>) -> (r: Result<SignalFilter, Failure>)
        ensures
            r is Ok <==> filter_compiles(filter_for(exclude.deep_view())),
            r matches Ok(filter) ==> filter@ == filter_for(exclude.deep_view()),
            r matches Err(e) ==> filter_refusal(filter_for(exclude.deep_view())) matches Some(
                words,
            ) && e.deep_view() == FailureModel::Pattern(words),
    {
        let ghost wanted = filter_for(exclude.deep_view());
        let ghost sub_refused = refused(wanted.subs);
        let ghost fact_patterns = wanted.facts_sep.map_values(pattern_of());
        let ghost fact_refused = refused(fact_patterns);
        let mut patterns: Vec<String> = Vec::new();
        let mut k: usize = 0;
        while k < exclude.len()
            invariant
                k <= exclude.len(),
                patterns.deep_view() == exclude.deep_view().take(k as int).map_values(
                    exclusion_of(),
                ),
            decreases exclude.len() - k,
        {
            let mut pattern: String = String::from_str("^(?:");
            pattern.append(exclude[k].as_str());
            pattern.append(")[0-9_]");
            let ghost before = patterns.deep_view();
            patterns.push(pattern);
            assert(patterns.deep_view() =~= before.push(exclusion_pattern(exclude[k as int]@)));
            assert(exclude.deep_view().take(k + 1) =~= exclude.deep_view().take(k as int).push(
                exclude[k as int]@,
            ));
            k += 1;
        }
        assert(exclude.deep_view().take(k as int) == exclude.deep_view());
        let excludes: PatternSet = match PatternSet::new(&patterns) {
            Err(e) => {
                return Err(e);
            },
            Ok(set) => set,
        };
        let prefixes: Vec<&'static str> = substitution_rules();
        let mut subs: Vec<Pattern> = Vec::new();
        let mut k: usize = 0;
        while k < prefixes.len()
            invariant
                k <= prefixes.len(),
                prefixes.deep_view() == substitution_prefixes(),
                wanted == filter_for(exclude.deep_view()),
                regex_set_refusal(wanted.excludes) is None,
                sub_refused == refused(wanted.subs),
                subs.len() == k,
                forall|i: int| 0 <= i < k ==> (#[trigger] subs[i]).source() == wanted.subs[i],
                forall|i: int| 0 <= i < k ==> !#[trigger] sub_refused(i),
            decreases prefixes.len() - k,
        {
            let mut pattern: String = String::from_str("^");
            pattern.append(prefixes[k]);
            pattern.append("([0-9_])");
            assert(prefixes.deep_view()[k as int] == prefixes[k as int]@);
            assert(pattern@ == wanted.subs[k as int]);
            match Pattern::new(pattern.as_str()) {
                Err(e) => {
                    proof {
                        assert(sub_refused(k as int));
                        lemma_least_found(0, wanted.subs.len() as int, sub_refused, k as int);
                    }
                    return Err(e);
                },
                Ok(re) => {
                    assert(!sub_refused(k as int));
                    subs.push(re);
                },
            }
            k += 1;
        }
        proof {
            lemma_least_absent(0, wanted.subs.len() as int, sub_refused);
        }
        let rules: Vec<(&'static str, &'static str)> = factorization_rules();
        let mut facts_sep: Vec<(Pattern, &'static str)> = Vec::new();
        let mut k: usize = 0;
        while k < rules.len()
            invariant
                k <= rules.len(),
                rules.deep_view() == factorizations(),
                wanted == filter_for(exclude.deep_view()),
                regex_set_refusal(wanted.excludes) is None,
                first_refusal(wanted.subs) is None,
                fact_patterns == wanted.facts_sep.map_values(pattern_of()),
                fact_refused == refused(fact_patterns),
                facts_sep.len() == k,
                forall|i: int|
                    0 <= i < k ==> (#[trigger] facts_sep[i]).0.source()
                        == wanted.facts_sep[i].0 && facts_sep[i].1@ == wanted.facts_sep[i].1,
                forall|i: int| 0 <= i < k ==> !#[trigger] fact_refused(i),
            decreases rules.len() - k,
        {
            let (pattern, separator) = rules[k];
            assert(rules.deep_view()[k as int] == (pattern@, separator@));
            assert(pattern@ == wanted.facts_sep[k as int].0);
            assert(fact_patterns[k as int] == pattern@);
            match Pattern::new(pattern) {
                Err(e) => {
                    proof {
                        assert(fact_refused(k as int));
                        lemma_least_found(0, fact_patterns.len() as int, fact_refused, k as int);
                    }
                    return Err(e);
                },
                Ok(re) => {
                    assert(!fact_refused(k as int));
                    facts_sep.push((re, separator));
                },
            }
            k += 1;
        }
        proof {
            lemma_least_absent(0, fact_patterns.len() as int, fact_refused);
        }
        let filter = SignalFilter { excludes, subs, facts_sep };
        assert(filter@.subs =~= wanted.subs);
        assert(filter@.facts_sep =~= wanted.facts_sep);
        Ok(filter)
    }
}

/// What one substitution makes of `name`: where its pattern matches, the two
/// capture groups of the leftmost match stand for the match; where it does
/// not, the name stays.
pub open spec fn substituted_once(pattern: Seq<char>, name: Seq<char>) -> Seq<char> {
    if regex_is_match(pattern, name) {
        regex_replaced(pattern, name, "$1$2"@)
    } else {
        name
    }
}

/// `name` after the substitutions `subs`, each applied once to what the ones
/// before it made of the name.
pub open spec fn substituted(subs: Seq<Seq<char>>, name: Seq<char>) -> Seq<char>
    decreases subs.len(),
{
    if subs.len() == 0 {
        name
    } else {
        substituted_once(subs.last(), substituted(subs.drop_last(), name))
    }
}

/// No pattern of `subs` matches `name`.
pub open spec fn matched_by_none(subs: Seq<Seq<char>>, name: Seq<char>) -> bool {
    forall|i: int| 0 <= i < subs.len() ==> !regex_is_match(#[trigger] subs[i], name)
}

/// No pattern of `facts` matches `name`.
pub open spec fn cut_by_none(facts: Seq<(Seq<char>, Seq<char>)>, name: Seq<char>) -> bool {
    forall|i: int|
        0 <= i < facts.len() ==> regex_first_group((#[trigger] facts[i]).0, name) is None
}

/// None of the filter's rules touches `name`: no substitution and no
/// factorization matches it, and no exclusion.
pub open spec fn untouched(filter: FilterModel, name: Seq<char>) -> bool {
    &&& matched_by_none(filter.subs, name)
    &&& cut_by_none(filter.facts_sep, name)
    &&& !any_is_match(filter.excludes, name)
}

/// `substituted` as a function of the name alone.
pub open spec fn substituted_by(subs: Seq<Seq<char>>) -> spec_fn(Seq<char>) -> Seq<char> {
    |name: Seq<char>| substituted(subs, name)
}

/// `names` after one factorization: the names that its pattern matches and
/// that differ in the first capture group only are merged. Where the pattern
/// matches a name without that group, the names stay as they are.
pub open spec fn factorized_by(fact: (Seq<char>, Seq<char>), names: Seq<Seq<char>>) -> Seq<
    Seq<char>,
> {
    if group_takes_part(fact.0, names) {
        factorized(names.map_values(piece_by(fact.0)), fact.1)
    } else {
        names
    }
}

/// `names` after the factorizations `facts`, each applied to what the ones
/// before it made of the names.
pub open spec fn factorized_all(facts: Seq<(Seq<char>, Seq<char>)>, names: Seq<Seq<char>>) -> Seq<
    Seq<char>,
>
    decreases facts.len(),
{
    if facts.len() == 0 {
        names
    } else {
        factorized_by(facts.last(), factorized_all(facts.drop_last(), names))
    }
}

/// The test for a name that no exclusion matches.
pub open spec fn kept(excludes: Seq<Seq<char>>) -> spec_fn(Seq<char>) -> bool {
    |name: Seq<char>| !any_is_match(excludes, name)
}

/// What the filter makes of the names of one column: each name is shortened
/// by the substitutions, the names are merged by the factorizations, and of
/// what comes out the names that an exclusion matches are dropped.
pub open spec fn filter_column(filter: FilterModel, names: Seq<Seq<char>>) -> Seq<Seq<char>> {
    factorized_all(filter.facts_sep, names.map_values(substituted_by(filter.subs))).filter(
        kept(filter.excludes),
    )
}

/// `filter_column` as a function of the names alone.
pub open spec fn column_filter(filter: FilterModel) -> spec_fn(Seq<Seq<char>>) -> Seq<Seq<char>> {
    |names: Seq<Seq<char>>| filter_column(filter, names)
}

impl SignalFilter {
    /// Shortens one name by the substitutions.
    pub fn substitute(&self, name: &str) -> (r: String)
        ensures
            r@ == substituted(self@.subs, name@),
    {
        let mut out: String = String::from_str(name);
        let mut k: usize = 0;
        while k < self.subs.len()
            invariant
                k <= self.subs.len(),
                out@ == substituted(self@.subs.take(k as int), name@),
            decreases self.subs.len() - k,
        {
            let ghost upto = self@.subs.take(k + 1);
            assert(upto.drop_last() == self@.subs.take(k as int));
            assert(upto.last() == self.subs[k as int].source());
            out = self.subs[k].replace(out.as_str(), "$1$2");
            k += 1;
        }
        assert(self@.subs.take(k as int) == self@.subs);
        out
    }

    /// Filter the names of one column.
    pub fn filter_column(&self, names: &Vec<String>) -> (r: Vec<String>)
        ensures
            r.deep_view() == filter_column(self@, names.deep_view()),
    {
        let ghost shorten = substituted_by(self@.subs);
        let mut current: Vec<String> = Vec::new();
        let mut k: usize = 0;
        assert(current.deep_view() =~= names.deep_view().take(0).map_values(shorten));
        while k < names.len()
            invariant
                k <= names.len(),
                shorten == substituted_by(self@.subs),
                current.deep_view() == names.deep_view().take(k as int).map_values(shorten),
            decreases names.len() - k,
        {
            let short: String = self.substitute(names[k].as_str());
            let ghost before = current.deep_view();
            current.push(short);
            assert(current.deep_view() =~= before.push(shorten(names[k as int]@)));
            assert(names.deep_view().take(k + 1).map_values(shorten) =~= names.deep_view().take(
                k as int,
            ).map_values(shorten).push(shorten(names[k as int]@)));
            k += 1;
        }
        assert(names.deep_view().take(k as int) == names.deep_view());
        let ghost renamed = current.deep_view();
        let mut k: usize = 0;
        while k < self.facts_sep.len()
            invariant
                k <= self.facts_sep.len(),
                current.deep_view() == factorized_all(self@.facts_sep.take(k as int), renamed),
            decreases self.facts_sep.len() - k,
        {
            let ghost upto = self@.facts_sep.take(k + 1);
            assert(upto.drop_last() == self@.facts_sep.take(k as int));
            let ghost fact = self.facts_sep[k as int];
            assert(upto.last() == (fact.0.source(), fact.1@));
            match try_factorize(&current, &self.facts_sep[k].0, self.facts_sep[k].1) {
                Some(merged) => {
                    current = merged;
                },
                None => {},
            }
            k += 1;
        }
        assert(self@.facts_sep.take(k as int) == self@.facts_sep);
        let ghost merged = current.deep_view();
        let ghost keep = kept(self@.excludes);
        let mut out: Vec<String> = Vec::new();
        let mut k: usize = 0;
        proof {
            reveal(Seq::filter);
            assert(out.deep_view() =~= merged.take(0).filter(keep));
        }
        while k < current.len()
            invariant
                k <= current.len(),
                merged == current.deep_view(),
                keep == kept(self@.excludes),
                out.deep_view() == merged.take(k as int).filter(keep),
            decreases current.len() - k,
        {
            proof {
                lemma_filter_step(merged, keep, k as int);
            }
            if !self.excludes.is_match(current[k].as_str()) {
                let ghost before = out.deep_view();
                out.push(current[k].clone());
                assert(out.deep_view() =~= before.push(current[k as int]@));
            }
            k += 1;
        }
        assert(merged.take(k as int) == merged);
        out
    }

    /// Filter a list of signal: each column by itself.
    pub fn signal_filter(&self, _name: &str, _position: &str, cols: &Vec<Vec<String>>) -> (r: Vec<
        Vec<String>,
    >)
        ensures
            r.deep_view() == cols.deep_view().map_values(column_filter(self@)),
    {
        let ghost f = column_filter(self@);
        let mut res: Vec<Vec<String>> = Vec::new();
        let mut k: usize = 0;
        assert(res.deep_view() =~= cols.deep_view().take(0).map_values(f));
        while k < cols.len()
            invariant
                k <= cols.len(),
                f == column_filter(self@),
                res.deep_view() == cols.deep_view().take(k as int).map_values(f),
            decreases cols.len() - k,
        {
            let signals: Vec<String> = self.filter_column(&cols[k]);
            let ghost before = res.deep_view();
            res.push(signals);
            assert(res.deep_view() =~= before.push(f(cols[k as int].deep_view())));
            assert(cols.deep_view().take(k + 1).map_values(f) =~= cols.deep_view().take(
                k as int,
            ).map_values(f).push(f(cols[k as int].deep_view())));
            k += 1;
        }
        assert(cols.deep_view().take(k as int) == cols.deep_view());
        res
    }
}

/// A name that no substitution matches is left as it is.
pub proof fn lemma_substituted_unmatched(subs: Seq<Seq<char>>, name: Seq<char>)
    requires
        matched_by_none(subs, name),
    ensures
        substituted(subs, name) == name,
    decreases subs.len(),
{
    if subs.len() > 0 {
        let front = subs.drop_last();
        assert forall|i: int| 0 <= i < front.len() implies !regex_is_match(
            #[trigger] front[i],
            name,
        ) by {
            assert(front[i] == subs[i]);
        }
        lemma_substituted_unmatched(front, name);
        assert(subs.last() == subs[subs.len() - 1]);
    }
}

/// Substituting twice is substituting once, wherever no substitution matches
/// what the first pass gave.
pub proof fn lemma_substituted_twice(subs: Seq<Seq<char>>, name: Seq<char>)
    requires
        matched_by_none(subs, substituted(subs, name)),
    ensures
        substituted(subs, substituted(subs, name)) == substituted(subs, name),
{
    lemma_substituted_unmatched(subs, substituted(subs, name));
}

/// The factorizations make nothing of no names.
pub proof fn lemma_factorized_none(facts: Seq<(Seq<char>, Seq<char>)>)
    ensures
        factorized_all(facts, Seq::empty()) == Seq::<Seq<char>>::empty(),
    decreases facts.len(),
{
    if facts.len() > 0 {
        lemma_factorized_none(facts.drop_last());
        lemma_factorized_unmatched(facts.last().0, Seq::empty(), facts.last().1);
    }
}

/// A name that stands alone comes out of the factorizations as it went in,
/// whether or not one of them matches it.
pub proof fn lemma_factorized_lone(facts: Seq<(Seq<char>, Seq<char>)>, name: Seq<char>)
    ensures
        factorized_all(facts, seq![name]) == seq![name],
    decreases facts.len(),
{
    if facts.len() > 0 {
        lemma_factorized_lone(facts.drop_last(), name);
        lemma_factorized_one(facts.last().0, name, facts.last().1);
    }
}

/// Names that no factorization matches come out of the factorizations as
/// they went in, and in their order.
pub proof fn lemma_factorized_uncut(facts: Seq<(Seq<char>, Seq<char>)>, names: Seq<Seq<char>>)
    requires
        forall|i: int| 0 <= i < names.len() ==> cut_by_none(facts, #[trigger] names[i]),
    ensures
        factorized_all(facts, names) == names,
    decreases facts.len(),
{
    if facts.len() > 0 {
        let front = facts.drop_last();
        assert forall|i: int| 0 <= i < names.len() implies cut_by_none(
            front,
            #[trigger] names[i],
        ) by {
            assert(cut_by_none(facts, names[i]));
            assert forall|k: int| 0 <= k < front.len() implies regex_first_group(
                (#[trigger] front[k]).0,
                names[i],
            ) is None by {
                assert(front[k] == facts[k]);
            }
        }
        lemma_factorized_uncut(front, names);
        assert forall|i: int| 0 <= i < names.len() implies regex_first_group(
            facts.last().0,
            #[trigger] names[i],
        ) is None by {
            assert(cut_by_none(facts, names[i]));
            assert(facts.last() == facts[facts.len() - 1]);
        }
        lemma_factorized_unmatched(facts.last().0, names, facts.last().1);
    }
}

/// A name that no factorization matches stays in the list through the
/// factorizations, whatever becomes of the other names.
pub proof fn lemma_factorized_keeps_uncut(
    facts: Seq<(Seq<char>, Seq<char>)>,
    names: Seq<Seq<char>>,
    name: Seq<char>,
)
    requires
        names.contains(name),
        cut_by_none(facts, name),
    ensures
        factorized_all(facts, names).contains(name),
    decreases facts.len(),
{
    if facts.len() > 0 {
        let front = facts.drop_last();
        assert forall|k: int| 0 <= k < front.len() implies regex_first_group(
            (#[trigger] front[k]).0,
            name,
        ) is None by {
            assert(front[k] == facts[k]);
        }
        lemma_factorized_keeps_uncut(front, names, name);
        assert(facts.last() == facts[facts.len() - 1]);
        lemma_factorized_keeps(facts.last().0, factorized_all(front, names), facts.last().1, name);
    }
}

/// The filter makes nothing of no names.
pub proof fn lemma_filter_none(filter: FilterModel)
    ensures
        filter_column(filter, Seq::empty()) == Seq::<Seq<char>>::empty(),
{
    let renamed = Seq::<Seq<char>>::empty().map_values(substituted_by(filter.subs));
    assert(renamed =~= Seq::empty());
    lemma_factorized_none(filter.facts_sep);
    reveal(Seq::filter);
}

/// Of a name that stands alone in its column the filter hands on the
/// shortened form, unless an exclusion matches that; no factorization
/// changes it.
pub proof fn lemma_filter_lone(filter: FilterModel, name: Seq<char>)
    ensures
        filter_column(filter, seq![name]) == (if any_is_match(
            filter.excludes,
            substituted(filter.subs, name),
        ) {
            Seq::<Seq<char>>::empty()
        } else {
            seq![substituted(filter.subs, name)]
        }),
{
    let short = substituted(filter.subs, name);
    let renamed = seq![name].map_values(substituted_by(filter.subs));
    assert(renamed =~= seq![short]);
    lemma_factorized_lone(filter.facts_sep, short);
    reveal_with_fuel(Seq::filter, 2);
    assert(seq![short].drop_last() =~= Seq::empty());
}

/// Filtering a lone name twice is filtering it once, wherever no substitution
/// matches what the first pass made of the name.
pub proof fn lemma_filter_twice(filter: FilterModel, name: Seq<char>)
    requires
        matched_by_none(filter.subs, substituted(filter.subs, name)),
    ensures
        filter_column(filter, filter_column(filter, seq![name])) == filter_column(
            filter,
            seq![name],
        ),
{
    let short = substituted(filter.subs, name);
    lemma_filter_lone(filter, name);
    if any_is_match(filter.excludes, short) {
        lemma_filter_none(filter);
    } else {
        lemma_substituted_unmatched(filter.subs, short);
        lemma_filter_lone(filter, short);
    }
}

/// A filter made for no exclusion fragments drops no name.
pub proof fn lemma_no_exclusions(name: Seq<char>)
    ensures
        !any_is_match(filter_for(Seq::empty()).excludes, name),
{
    assert(filter_for(Seq::empty()).excludes =~= Seq::empty());
}

/// The filter hands on a name that none of its rules touches, whatever the
/// other names of the column are.
pub proof fn lemma_filter_keeps_untouched(
    filter: FilterModel,
    names: Seq<Seq<char>>,
    name: Seq<char>,
)
    requires
        names.contains(name),
        untouched(filter, name),
    ensures
        filter_column(filter, names).contains(name),
{
    let i = choose|i: int| 0 <= i < names.len() && names[i] == name;
    lemma_substituted_unmatched(filter.subs, name);
    let renamed = names.map_values(substituted_by(filter.subs));
    assert(renamed[i] == name);
    lemma_factorized_keeps_uncut(filter.facts_sep, renamed, name);
    let merged = factorized_all(filter.facts_sep, renamed);
    let j = choose|j: int| 0 <= j < merged.len() && merged[j] == name;
    merged.lemma_filter_contains(kept(filter.excludes), j);
}

/// Where no substitution and no factorization matches any name of a column,
/// the filter only drops the names that an exclusion matches.
pub proof fn lemma_filter_unmatched(filter: FilterModel, names: Seq<Seq<char>>)
    requires
        forall|i: int|
            0 <= i < names.len() ==> matched_by_none(filter.subs, #[trigger] names[i])
                && cut_by_none(filter.facts_sep, names[i]),
    ensures
        filter_column(filter, names) == names.filter(kept(filter.excludes)),
{
    let renamed = names.map_values(substituted_by(filter.subs));
    assert(renamed =~= names) by {
        assert forall|i: int| 0 <= i < names.len() implies renamed[i] == names[i] by {
            assert(matched_by_none(filter.subs, names[i]));
            lemma_substituted_unmatched(filter.subs, names[i]);
        }
    }
    lemma_factorized_uncut(filter.facts_sep, names);
}

/// Exclusion is the last word: no name that the filter lets through is
/// matched by an exclusion, whatever the substitutions and factorizations
/// made of it.
pub proof fn lemma_exclusion_final(filter: FilterModel, names: Seq<Seq<char>>, i: int)
    requires
        0 <= i < filter_column(filter, names).len(),
    ensures
        !any_is_match(filter.excludes, filter_column(filter, names)[i]),
        forall|k: int|
            0 <= k < filter.excludes.len() ==> !regex_is_match(
                #[trigger] filter.excludes[k],
                filter_column(filter, names)[i],
            ),
{
    let merged = factorized_all(filter.facts_sep, names.map_values(substituted_by(filter.subs)));
    merged.lemma_filter_pred(kept(filter.excludes), i);
}

/// A name that an exclusion matches never stands in what the filter lets
/// through, whether or not a factorization matches it too.
pub proof fn lemma_excluded_name_absent(
    filter: FilterModel,
    names: Seq<Seq<char>>,
    name: Seq<char>,
)
    requires
        any_is_match(filter.excludes, name),
    ensures
        !filter_column(filter, names).contains(name),
{
    let out = filter_column(filter, names);
    if out.contains(name) {
        let i = choose|i: int| 0 <= i < out.len() && out[i] == name;
        lemma_exclusion_final(filter, names, i);
    }
}

/// In a filter made for the fragments `exclude`, no name that comes through
/// begins with what a fragment matches, a digit or an underscore following.
pub proof fn lemma_excluded_fragment(
    exclude: Seq<Seq<char>>,
    names: Seq<Seq<char>>,
    i: int,
    k: int,
)
    requires
        0 <= i < filter_column(filter_for(exclude), names).len(),
        0 <= k < exclude.len(),
    ensures
        !regex_is_match(
            exclusion_pattern(exclude[k]),
            filter_column(filter_for(exclude), names)[i],
        ),
{
    let filter = filter_for(exclude);
    lemma_exclusion_final(filter, names, i);
    assert(filter.excludes[k] == exclusion_pattern(exclude[k]));
}

/// The text of a cell: the names in it, a space between neighbours.
pub open spec fn cell(names: Seq<Seq<char>>) -> Seq<char> {
    join(names, " "@)
}

/// The error type of the `csv` crate.
#[verifier::external_type_specification]
#[verifier::external_body]
pub struct ExCsvError(csv::Error);

/// What the `Display` of an error of the `csv` crate writes.
pub uninterp spec fn csv_error_text(e: csv::Error) -> Seq<char>;

/// The bytes that a `csv::Writer` with its default settings writes for one
/// record of the fields `fields`, the record's terminator included; or the
/// words of the error where it fails.
pub uninterp spec fn csv_record_bytes(fields: Seq<Seq<char>>) -> Result<Seq<u8>, Seq<char>>;

/// Makes a `csv::Writer` over an empty vector of bytes with
/// `Writer::from_writer`, writes `fields` with `write_record`, and takes the
/// vector back with `into_inner`. The contract claims that what comes out,
/// bytes or error, depends on the fields alone.
#[verifier::external_body]
fn csv_record(fields: &Vec<String>) -> (r: Result<Vec<u8>, csv::Error>)
    ensures
        csv_record_bytes(fields.deep_view()) == (match r {
            Ok(bytes) => Ok::<Seq<u8>, Seq<char>>(bytes@),
            Err(e) => Err(csv_error_text(e)),
        }),
{
    let mut writer = csv::Writer::from_writer(Vec::new());
    writer.write_record(fields)?;
    writer.into_inner().map_err(|e| csv::Error::from(e.into_error()))
}

/// Calls `to_string` on an error of the `csv` crate, which writes it with its
/// `Display`.
#[verifier::external_body]
fn csv_error_words(e: &csv::Error) -> (r: String)
    ensures
        r@ == csv_error_text(*e),
{
    e.to_string()
}

/// Whether the part can be laid out: in the alternate-function layout every
/// AF number has to be one of the columns.
pub open spec fn renderable(part: PartModel) -> bool {
    part.gpio_mode is AF ==> slots_in_range(part.pins)
}

/// The rows of the part's table, one for each pin, in the layout of the
/// part's mode.
pub open spec fn rows_of(filter: FilterModel, part: PartModel) -> Result<
    Seq<Seq<Seq<char>>>,
    FailureModel,
> {
    match part.gpio_mode {
        GpioMode::AF => af_rows(filter, part.pins),
        GpioMode::Remap => Ok(remap_rows(filter, part.pins)),
    }
}

/// The rows as CSV records, one after another; or the words of the error for
/// the first row that cannot be written.
pub open spec fn csv_table(rows: Seq<Seq<Seq<char>>>) -> Result<Seq<u8>, Seq<char>>
    decreases rows.len(),
{
    if rows.len() == 0 {
        Ok(Seq::empty())
    } else {
        match csv_table(rows.drop_last()) {
            Err(words) => Err(words),
            Ok(before) => match csv_record_bytes(rows.last()) {
                Err(words) => Err(words),
                Ok(record) => Ok(before + record),
            },
        }
    }
}

/// The part's table as CSV, or the fault that keeps it from being made.
pub open spec fn pin_out_of(filter: FilterModel, part: PartModel) -> Result<Seq<u8>, FailureModel> {
    match rows_of(filter, part) {
        Err(e) => Err(e),
        Ok(rows) => match csv_table(rows) {
            Ok(bytes) => Ok(bytes),
            Err(words) => Err(FailureModel::Csv(words)),
        },
    }
}

/// A fault in writing the first rows is a fault in writing all.
pub proof fn lemma_csv_table_fault(rows: Seq<Seq<Seq<char>>>, k: int)
    requires
        0 <= k <= rows.len(),
        csv_table(rows.take(k)) is Err,
    ensures
        csv_table(rows) == csv_table(rows.take(k)),
    decreases rows.len() - k,
{
    if k == rows.len() {
        assert(rows.take(k) == rows);
    } else {
        assert(rows.take(k + 1).drop_last() == rows.take(k));
        lemma_csv_table_fault(rows, k + 1);
    }
}

/// The rows of the part's table, in the layout of the part's mode. In a part
/// of the alternate-function mode every AF number must be a column, which
/// `PartInfo::slots_in_range` tests; a signal mapped by remap in such a part
/// is a fault.
pub fn render(part_info: &PartInfo, filter: &SignalFilter) -> (r: Result<Vec<Vec<String>>, Failure>)
    requires
        renderable(part_info.deep_view()),
    ensures
        result_model(r) == rows_of(filter@, part_info.deep_view()),
{
    match part_info.gpio_mode {
        GpioMode::AF => write_pin_out_af(part_info, filter),
        GpioMode::Remap => Ok(write_pin_out_remap(part_info, filter)),
    }
}

/// Produce a pin out table, as CSV: one record for each row of `render`.
pub fn write_pin_out(part_info: &PartInfo, filter: &SignalFilter) -> (r: Result<Vec<u8>, Failure>)
    requires
        renderable(part_info.deep_view()),
    ensures
        result_model(r) == pin_out_of(filter@, part_info.deep_view()),
{
    let rows: Vec<Vec<String>> = match render(part_info, filter) {
        Err(e) => {
            return Err(e);
        },
        Ok(rows) => rows,
    };
    let ghost all = rows.deep_view();
    let mut out: Vec<u8> = Vec::new();
    let mut k: usize = 0;
    assert(all.take(0) =~= Seq::empty());
    while k < rows.len()
        invariant
            k <= rows.len(),
            all == rows.deep_view(),
            rows_of(filter@, part_info.deep_view()) == Ok::<Seq<Seq<Seq<char>>>, FailureModel>(all),
            csv_table(all.take(k as int)) == Ok::<Seq<u8>, Seq<char>>(out@),
        decreases rows.len() - k,
    {
        assert(all.take(k + 1).drop_last() == all.take(k as int));
        assert(all.take(k + 1).last() == rows[k as int].deep_view());
        match csv_record(&rows[k]) {
            Err(e) => {
                proof {
                    lemma_csv_table_fault(all, k + 1);
                }
                return Err(Failure::Csv(csv_error_words(&e)));
            },
            Ok(mut record) => {
                out.append(&mut record);
            },
        }
        k += 1;
    }
    assert(all.take(k as int) == all);
    assert(out.deep_view() =~= out@);
    Ok(out)
}

/// A uniform part has a table: neither layout finds a mapping that it cannot
/// place.
pub proof fn lemma_uniform_has_rows(filter: FilterModel, part: PartModel)
    requires
        uniform(part),
    ensures
        rows_of(filter, part) is Ok,
{
    if part.gpio_mode is AF && any_remap(part.pins) {
        let i = choose|i: int|
            0 <= i < part.pins.len() && has_remap((#[trigger] part.pins[i]).signals);
        let signals = part.pins[i].signals;
        let j = choose|j: int| 0 <= j < signals.len() && (#[trigger] signals[j]).map is Remap;
        assert(of_mode(part.pins[i].signals[j].map, part.gpio_mode));
    }
}

/// Laying out is a function of the part and the filter: two tables made of
/// the same part with the same filter are the same table.
pub proof fn lemma_render_deterministic(
    part_info: &PartInfo,
    filter: &SignalFilter,
    first: Result<Vec<Vec<String>>, Failure>,
    second: Result<Vec<Vec<String>>, Failure>,
)
    requires
        result_model(first) == rows_of(filter@, part_info.deep_view()),
        result_model(second) == rows_of(filter@, part_info.deep_view()),
    ensures
        result_model(first) == result_model(second),
{
}

} // verus!
