//! The text format of parameter spaces.
//!
//! ```text
//! alpha {1.01, 1.066, 1.189} [1.189]      # a domain and a default
//! child {a, b} [a] | parent in {val1}     # only active when parent is val1
//! child | parent in {val1}                # the same condition on a line of its own
//! {alpha=1.01, rho=0}                     # a forbidden combination
//! ```

use crate::config::pair_views;
use crate::params::{Condition, ConditionView, Forbidden, Param, ParamSpace, ParamView, SpaceView};
use crate::text::{
    all_white, chars_of, contains_text, copy_of, find, find_last, joined, lemma_pieces_of_two_texts,
    lemma_tidy_is_trimmed, lemma_trimming_takes_the_padding, lemma_lines_read_back,
    lines_of, pieces, rows, same_text, slice_of, split,
    split_lines, string_of, texts, tidy, trim, trimmed, white, written_lines,
};
use vstd::prelude::*;

verus! {

/// Why a text is not a parameter space.
#[derive(Debug)]
pub enum ParamError {
    /// The default of a parameter is not one of its values.
    DefaultNotInDomain { line: usize, default: String, domain: Vec<String>, name: String },
    /// What follows the `|` of a parameter is not a condition.
    MalformedCondition { line: usize, condition: String },
}

/// What a text says: a parameter space, or the first line that is wrong.
pub enum Reading {
    Space(SpaceView),
    DefaultNotInDomain { line: nat, default: Seq<char>, domain: Seq<Seq<char>>, name: Seq<char> },
    MalformedCondition { line: nat, condition: Seq<char> },
    /// In a domain, a default or a combination the closing delimiter stands
    /// before the opening one.
    Misordered { line: nat },
}

/// What a condition text says.
pub enum ConditionReading {
    Condition(ConditionView),
    Malformed,
}

/// What one line says.
pub enum LineReading {
    Nothing,
    Forbidden(Seq<(Seq<char>, Seq<char>)>),
    Condition { name: Seq<char>, condition: ConditionView },
    Param(ParamView),
    DefaultNotInDomain { default: Seq<char>, domain: Seq<Seq<char>>, name: Seq<char> },
    MalformedCondition(Seq<char>),
    Misordered,
}

/// A line up to its comment.
pub open spec fn uncommented(line: Seq<char>) -> Seq<char> {
    match line.index_of_first('#') {
        Some(i) => line.take(i),
        None => line,
    }
}

/// The values of a list that commas separate; empty ones do not count.
pub open spec fn listed_values(s: Seq<char>) -> Seq<Seq<char>> {
    pieces(s, ',').map_values(|p: Seq<char>| trimmed(p)).filter(|v: Seq<char>| v.len() > 0)
}

/// The `name=value` pair that a text writes, if it writes one.
pub open spec fn binding(s: Seq<char>) -> Option<(Seq<char>, Seq<char>)> {
    let t = trimmed(s);
    match t.index_of_first('=') {
        Some(i) => {
            let name = trimmed(t.take(i));
            if name.len() == 0 {
                None
            } else {
                Some((name, trimmed(t.skip(i + 1))))
            }
        },
        None => None,
    }
}

/// The pairs of a list that commas separate; what is no pair does not count.
pub open spec fn bindings(s: Seq<char>) -> Seq<(Seq<char>, Seq<char>)> {
    pieces(s, ',').filter_map(|p: Seq<char>| binding(p))
}

/// Whether the word `in` between two blanks stands at position `i`.
pub open spec fn in_at(s: Seq<char>, i: int) -> bool {
    &&& 0 <= i
    &&& i + 4 <= s.len()
    &&& s[i] == ' '
    &&& s[i + 1] == 'i'
    &&& s[i + 2] == 'n'
    &&& s[i + 3] == ' '
}

/// The first position from `from` on at which `in` stands between two blanks.
pub open spec fn first_in(s: Seq<char>, from: int) -> Option<int>
    decreases s.len() - from,
{
    if from + 4 > s.len() {
        None
    } else if in_at(s, from) {
        Some(from)
    } else {
        first_in(s, from + 1)
    }
}

/// What a condition text `parent in {val1, val2}` says.
pub open spec fn condition_reading(s: Seq<char>) -> ConditionReading {
    match (first_in(s, 0), s.index_of_first('{'), s.index_of_last('}')) {
        (Some(at), Some(open), Some(close)) => {
            if close < open {
                ConditionReading::Malformed
            } else {
                let parent = trimmed(s.take(at));
                let allowed_values = listed_values(s.subrange(open + 1, close));
                if parent.len() == 0 || allowed_values.len() == 0 {
                    ConditionReading::Malformed
                } else {
                    ConditionReading::Condition(ConditionView { parent, allowed_values })
                }
            }
        },
        _ => ConditionReading::Malformed,
    }
}

/// What a line of the form `{p1=v1, p2=v2}` says.
pub open spec fn forbidden_reading(line: Seq<char>) -> LineReading {
    match (line.index_of_first('{'), line.index_of_last('}')) {
        (Some(open), Some(close)) => {
            if close < open {
                LineReading::Misordered
            } else {
                let combo = bindings(line.subrange(open + 1, close));
                if combo.len() == 0 {
                    LineReading::Nothing
                } else {
                    LineReading::Forbidden(combo)
                }
            }
        },
        _ => LineReading::Nothing,
    }
}

/// What a line of the form `name | parent in {values}`, with a bar at `bar`, says.
pub open spec fn standalone_reading(line: Seq<char>, bar: int) -> LineReading {
    let name = trimmed(line.take(bar));
    if name.contains('{') || name.len() == 0 {
        LineReading::Nothing
    } else {
        match condition_reading(trimmed(line.skip(bar + 1))) {
            ConditionReading::Condition(condition) => LineReading::Condition { name, condition },
            ConditionReading::Malformed => LineReading::Nothing,
        }
    }
}

/// What a definition `name {domain} [default]`, with the text of its condition
/// if it has one, says.
pub open spec fn definition_reading(def: Seq<char>, condition: Option<Seq<char>>) -> LineReading {
    match (
        def.index_of_first('{'),
        def.index_of_first('}'),
        def.index_of_first('['),
        def.index_of_first(']'),
    ) {
        (Some(open), Some(close), Some(open_default), Some(close_default)) => {
            let name = trimmed(def.take(open));
            if name.len() == 0 {
                LineReading::Nothing
            } else if close < open || close_default < open_default {
                LineReading::Misordered
            } else {
                let domain = listed_values(def.subrange(open + 1, close));
                let default = trimmed(def.subrange(open_default + 1, close_default));
                if !domain.contains(default) {
                    LineReading::DefaultNotInDomain { default, domain, name }
                } else {
                    match condition {
                        None => LineReading::Param(
                            ParamView { name, domain, default, condition: None },
                        ),
                        Some(text) => match condition_reading(text) {
                            ConditionReading::Condition(c) => LineReading::Param(
                                ParamView { name, domain, default, condition: Some(c) },
                            ),
                            ConditionReading::Malformed => LineReading::MalformedCondition(text),
                        },
                    }
                }
            }
        },
        _ => LineReading::Nothing,
    }
}

/// What one line says.
pub open spec fn line_reading(raw: Seq<char>) -> LineReading {
    let line = trimmed(uncommented(raw));
    if !line.contains('{') {
        LineReading::Nothing
    } else {
        match (line.contains('['), line.index_of_first('|')) {
            (false, None) => forbidden_reading(line),
            (false, Some(bar)) => standalone_reading(line, bar),
            (true, None) => definition_reading(line, None),
            (true, Some(bar)) => definition_reading(
                trimmed(line.take(bar)),
                Some(trimmed(line.skip(bar + 1))),
            ),
        }
    }
}

/// The position of the first parameter of that name.
pub open spec fn first_named(params: Seq<ParamView>, name: Seq<char>) -> Option<int> {
    params.map_values(|p: ParamView| p.name).index_of_first(name)
}

/// The space `s` after one more line, the one with the given number.
pub open spec fn with_line(s: SpaceView, line: LineReading, number: nat) -> Reading {
    match line {
        LineReading::Nothing => Reading::Space(s),
        LineReading::Forbidden(combo) => Reading::Space(
            SpaceView { forbidden: s.forbidden.push(combo), ..s },
        ),
        LineReading::Condition { name, condition } => match first_named(s.params, name) {
            Some(i) => Reading::Space(
                SpaceView {
                    params: s.params.update(
                        i,
                        ParamView { condition: Some(condition), ..s.params[i] },
                    ),
                    ..s
                },
            ),
            None => Reading::Space(s),
        },
        LineReading::Param(p) => Reading::Space(SpaceView { params: s.params.push(p), ..s }),
        LineReading::DefaultNotInDomain { default, domain, name } => Reading::DefaultNotInDomain {
            line: number,
            default,
            domain,
            name,
        },
        LineReading::MalformedCondition(condition) => Reading::MalformedCondition {
            line: number,
            condition,
        },
        LineReading::Misordered => Reading::Misordered { line: number },
    }
}

/// The space that holds nothing.
pub open spec fn empty_space() -> SpaceView {
    SpaceView { params: Seq::empty(), forbidden: Seq::empty() }
}

/// What the first `n` lines say.
pub open spec fn reading_of_lines(lines: Seq<Seq<char>>, n: nat) -> Reading
    decreases n,
{
    if n == 0 {
        Reading::Space(empty_space())
    } else {
        match reading_of_lines(lines, (n - 1) as nat) {
            Reading::Space(s) => with_line(s, line_reading(lines[n - 1]), n),
            other => other,
        }
    }
}

/// What a text says.
pub open spec fn reading(text: Seq<char>) -> Reading {
    reading_of_lines(lines_of(text), lines_of(text).len())
}

/// A condition as it comes out of a text: it names a parent and allows some
/// value, and no empty one.
pub open spec fn sound_condition(c: ConditionView) -> bool {
    &&& c.parent.len() > 0
    &&& c.allowed_values.len() > 0
    &&& forall|v: int| 0 <= v < c.allowed_values.len() ==> (#[trigger] c.allowed_values[v]).len() > 0
}

/// A combination as it comes out of a text: it holds something, and every pair
/// of it has a name.
pub open spec fn sound_combination(combo: Seq<(Seq<char>, Seq<char>)>) -> bool {
    &&& combo.len() > 0
    &&& forall|i: int| 0 <= i < combo.len() ==> (#[trigger] combo[i]).0.len() > 0
}

/// A space as it comes out of a text: names, domains, conditions and
/// combinations hold something, and defaults are values.
pub open spec fn sound_space(s: SpaceView) -> bool {
    &&& forall|i: int|
        0 <= i < s.params.len() ==> {
            let p = #[trigger] s.params[i];
            &&& p.name.len() > 0
            &&& p.domain.contains(p.default)
            &&& p.domain.len() > 0
            &&& forall|v: int| 0 <= v < p.domain.len() ==> (#[trigger] p.domain[v]).len() > 0
            &&& p.condition matches Some(c) ==> sound_condition(c)
        }
    &&& forall|c: int| 0 <= c < s.forbidden.len() ==> sound_combination(#[trigger] s.forbidden[c])
}

proof fn lemma_listed_values_nonempty(s: Seq<char>)
    ensures
        forall|i: int| 0 <= i < listed_values(s).len() ==> (#[trigger] listed_values(s)[i]).len() > 0,
{
    broadcast use Seq::lemma_filter_pred;

    let pred = |v: Seq<char>| v.len() > 0;
    let all = pieces(s, ',').map_values(|p: Seq<char>| trimmed(p));
    assert(listed_values(s) == all.filter(pred));
    assert forall|i: int| 0 <= i < listed_values(s).len() implies (#[trigger] listed_values(
        s,
    )[i]).len() > 0 by {
        assert(pred(all.filter(pred)[i]));
    }
}

proof fn lemma_condition_is_sound(s: Seq<char>)
    ensures
        condition_reading(s) matches ConditionReading::Condition(c) ==> sound_condition(c),
{
    if let (Some(open), Some(close)) = (s.index_of_first('{'), s.index_of_last('}')) {
        lemma_listed_values_nonempty(s.subrange(open + 1, close));
    }
}

proof fn lemma_bindings_are_named(l: Seq<Seq<char>>, f: spec_fn(Seq<char>) -> Option<(Seq<char>, Seq<char>)>)
    requires
        f == (|p: Seq<char>| binding(p)),
    ensures
        forall|i: int| 0 <= i < l.filter_map(f).len() ==> (#[trigger] l.filter_map(f)[i]).0.len() > 0,
    decreases l.len(),
{
    if l.len() > 0 {
        let shorter = l.drop_last().filter_map(f);
        let longer = l.filter_map(f);
        lemma_bindings_are_named(l.drop_last(), f);
        assert forall|i: int| 0 <= i < longer.len() implies (#[trigger] longer[i]).0.len() > 0 by {
            if i < shorter.len() {
                assert(longer[i] == shorter[i]);
            } else {
                assert(Some(longer[i]) == binding(l.last()));
            }
        }
    }
}

/// Whatever lines it is read from, a space has named parameters, each with its
/// default among its values, conditions that can hold, and combinations of
/// named values.
pub proof fn lemma_reading_is_sound(lines: Seq<Seq<char>>, n: nat)
    ensures
        reading_of_lines(lines, n) matches Reading::Space(s) ==> sound_space(s),
    decreases n,
{
    if n > 0 {
        lemma_reading_is_sound(lines, (n - 1) as nat);
        if let Reading::Space(s) = reading_of_lines(lines, (n - 1) as nat) {
            let line = trimmed(uncommented(lines[n - 1]));
            let item = line_reading(lines[n - 1]);
            if let LineReading::Param(p) = item {
                let def = match line.index_of_first('|') {
                    Some(bar) => trimmed(line.take(bar)),
                    None => line,
                };
                let open = def.index_of_first('{')->Some_0;
                let close = def.index_of_first('}')->Some_0;
                lemma_listed_values_nonempty(def.subrange(open + 1, close));
                if let Some(bar) = line.index_of_first('|') {
                    lemma_condition_is_sound(trimmed(line.skip(bar + 1)));
                }
                assert(p.domain == listed_values(def.subrange(open + 1, close)));
                assert(p.domain.contains(p.default));
            }
            if let LineReading::Forbidden(combo) = item {
                let open = line.index_of_first('{')->Some_0;
                let close = line.index_of_last('}')->Some_0;
                lemma_bindings_are_named(
                    pieces(line.subrange(open + 1, close), ','),
                    |p: Seq<char>| binding(p),
                );
            }
            if let LineReading::Condition { name, condition } = item {
                let bar = line.index_of_first('|')->Some_0;
                lemma_condition_is_sound(trimmed(line.skip(bar + 1)));
                s.params.map_values(|p: ParamView| p.name).index_of_first_ensures(name);
            }
        }
    }
}

/// Whether `raw` is `value` with white characters round it.
pub open spec fn padded(raw: Seq<char>, value: Seq<char>) -> bool {
    exists|a: Seq<char>, b: Seq<char>| all_white(a) && all_white(b) && raw == #[trigger] (a + value + b)
}

proof fn lemma_padding_is_trimmed(raw: Seq<char>, value: Seq<char>)
    requires
        padded(raw, value),
        value.len() == 0 || tidy(value),
    ensures
        trimmed(raw) == value,
{
    let (a, b) = choose|a: Seq<char>, b: Seq<char>|
        all_white(a) && all_white(b) && raw == #[trigger] (a + value + b);
    lemma_trimming_takes_the_padding(a, value, b);
}

/// The values of two lists with a comma between them are the values of the one
/// and then those of the other.
pub proof fn lemma_lists_of_values_add_up(a: Seq<char>, b: Seq<char>)
    ensures
        listed_values(a + seq![','] + b) == listed_values(a) + listed_values(b),
{
    lemma_pieces_of_two_texts(a, ',', b);
    let f = |p: Seq<char>| trimmed(p);
    let keep = |v: Seq<char>| v.len() > 0;
    let p = pieces(a, ',');
    let q = pieces(b, ',');
    assert((p + q).map_values(f) =~= p.map_values(f) + q.map_values(f));
    Seq::filter_distributes_over_add(p.map_values(f), q.map_values(f), keep);
}

/// A text without a comma lists the value that it holds between white characters,
/// and none if it holds white characters only.
pub proof fn lemma_single_value_is_listed(raw: Seq<char>, value: Seq<char>)
    requires
        !raw.contains(','),
        padded(raw, value),
        value.len() == 0 || tidy(value),
    ensures
        value.len() > 0 ==> listed_values(raw) == seq![value],
        value.len() == 0 ==> listed_values(raw) == Seq::<Seq<char>>::empty(),
{
    lemma_padding_is_trimmed(raw, value);
    lemma_pieces_of_two_texts(Seq::empty(), ',', raw);
    let keep = |v: Seq<char>| v.len() > 0;
    let all = pieces(raw, ',').map_values(|p: Seq<char>| trimmed(p));
    assert(all =~= seq![value]);
    assert(all.drop_last() =~= Seq::empty());
    reveal_with_fuel(Seq::filter, 2);
    assert(listed_values(raw) =~= if value.len() > 0 {
        seq![value]
    } else {
        Seq::empty()
    });
}

/// Values written one after another with commas between them are all read, in
/// order.
pub proof fn lemma_listed_values_read_back(raws: Seq<Seq<char>>, values: Seq<Seq<char>>)
    requires
        raws.len() == values.len(),
        forall|i: int|
            0 <= i < raws.len() ==> !(#[trigger] raws[i]).contains(',') && padded(raws[i], values[i])
                && tidy(values[i]),
    ensures
        listed_values(joined(raws, seq![','])) == values,
    decreases raws.len(),
{
    if raws.len() == 0 {
        let none = Seq::<char>::empty();
        assert(none =~= none + none + none);
        assert(padded(none, none));
        lemma_single_value_is_listed(none, none);
        assert(values =~= Seq::empty());
    } else {
        let shorter = raws.drop_last();
        let values_before = values.drop_last();
        let last = raws.len() - 1;
        assert(!raws[last].contains(','));
        lemma_single_value_is_listed(raws[last], values[last]);
        assert forall|i: int| 0 <= i < shorter.len() implies !(#[trigger] shorter[i]).contains(',') && padded(
            shorter[i],
            values_before[i],
        ) && tidy(values_before[i]) by {
            assert(shorter[i] == raws[i]);
        }
        lemma_listed_values_read_back(shorter, values_before);
        if shorter.len() > 0 {
            lemma_lists_of_values_add_up(joined(shorter, seq![',']), raws[last]);
        } else {
            assert(joined(raws, seq![',']) == raws[0]);
        }
        assert(listed_values(joined(raws, seq![','])) =~= values);
    }
}

/// Whether a text lists values: with commas between them, each with white characters
/// round it, and none with a comma in it.
pub open spec fn writes_list(list: Seq<char>, values: Seq<Seq<char>>) -> bool {
    exists|raws: Seq<Seq<char>>| #[trigger] writes_values(raws, values) && list == joined(raws, seq![','])
}

/// Whether texts write values: each with white characters round it, and none with
/// a comma in it.
pub open spec fn writes_values(raws: Seq<Seq<char>>, values: Seq<Seq<char>>) -> bool {
    &&& raws.len() == values.len()
    &&& forall|i: int|
        0 <= i < raws.len() ==> !(#[trigger] raws[i]).contains(',') && padded(raws[i], values[i]) && tidy(
            values[i],
        )
}

/// Whether a text holds none of the given characters.
pub open spec fn lacks(s: Seq<char>, marks: Seq<char>) -> bool {
    forall|i: int| 0 <= i < s.len() ==> !marks.contains(#[trigger] s[i])
}

proof fn lemma_list_reads_back(list: Seq<char>, values: Seq<Seq<char>>)
    requires
        writes_list(list, values),
    ensures
        listed_values(list) == values,
{
    let raws = choose|raws: Seq<Seq<char>>| #[trigger]
        writes_values(raws, values) && list == joined(raws, seq![',']);
    lemma_listed_values_read_back(raws, values);
}

/// The text `parent in {list}`.
pub open spec fn condition_text(parent: Seq<char>, list: Seq<char>) -> Seq<char> {
    loose_condition_text(parent, Seq::empty(), list, Seq::empty())
}

/// The text `parent in {list}` with something between `in` and the brace, and after
/// the brace.
pub open spec fn loose_condition_text(
    parent: Seq<char>,
    gap: Seq<char>,
    list: Seq<char>,
    tail: Seq<char>,
) -> Seq<char> {
    parent + seq![' ', 'i', 'n', ' '] + gap + seq!['{'] + list + seq!['}'] + tail
}

/// Whether a text stands within another at position `i`.
pub open spec fn stands_at(s: Seq<char>, part: Seq<char>, i: int) -> bool {
    0 <= i && i + part.len() <= s.len() && s.subrange(i, i + part.len()) == part
}

/// Whether the word `in` between two blanks begins somewhere in a text that it
/// follows.
pub open spec fn holds_in(s: Seq<char>) -> bool {
    let word = seq![' ', 'i', 'n', ' '];
    exists|i: int| 0 <= i < s.len() && #[trigger] stands_at(s + word, word, i)
}

proof fn lemma_first_in_is(s: Seq<char>, from: int, at: int)
    requires
        0 <= from <= at,
        in_at(s, at),
        forall|i: int| from <= i < at ==> !in_at(s, i),
    ensures
        first_in(s, from) == Some(at),
    decreases at - from,
{
    if from < at {
        assert(!in_at(s, from));
        lemma_first_in_is(s, from + 1, at);
    }
}

proof fn lemma_first_at(s: Seq<char>, c: char, i: int)
    requires
        0 <= i < s.len(),
        s[i] == c,
        forall|j: int| 0 <= j < i ==> s[j] != c,
    ensures
        s.index_of_first(c) == Some(i),
{
    s.index_of_first_ensures(c);
}

proof fn lemma_last_at(s: Seq<char>, c: char, i: int)
    requires
        0 <= i < s.len(),
        s[i] == c,
        forall|j: int| i < j < s.len() ==> s[j] != c,
    ensures
        s.index_of_last(c) == Some(i),
{
    s.index_of_last_ensures(c);
}

/// A condition reads as it is written: every value between the braces is allowed,
/// in order, and the parent is what stands before the word `in`, without the white
/// characters round it.
pub proof fn lemma_condition_reads_back(
    raw_parent: Seq<char>,
    parent: Seq<char>,
    gap: Seq<char>,
    list: Seq<char>,
    tail: Seq<char>,
    values: Seq<Seq<char>>,
)
    requires
        padded(raw_parent, parent),
        tidy(parent),
        !raw_parent.contains('{'),
        !holds_in(raw_parent),
        !gap.contains('{'),
        !tail.contains('}'),
        writes_list(list, values),
        values.len() > 0,
    ensures
        condition_reading(loose_condition_text(raw_parent, gap, list, tail)) == ConditionReading::Condition(
            ConditionView { parent, allowed_values: values },
        ),
{
    let s = loose_condition_text(raw_parent, gap, list, tail);
    let n = raw_parent.len() as int;
    let open = n + 4 + gap.len();
    let close = open + 1 + list.len();
    let word = seq![' ', 'i', 'n', ' '];
    lemma_list_reads_back(list, values);
    assert(s[n] == ' ' && s[n + 1] == 'i' && s[n + 2] == 'n' && s[n + 3] == ' ' && s[open] == '{' && s[close]
        == '}');
    assert forall|i: int| 0 <= i < n implies !in_at(s, i) && s[i] != '{' by {
        assert(s[i] == raw_parent[i]);
        assert(raw_parent.contains(raw_parent[i]));
        if in_at(s, i) {
            assert((raw_parent + word).subrange(i, i + 4) =~= word) by {
                assert forall|k: int| 0 <= k < 4 implies (raw_parent + word).subrange(i, i + 4)[k] == word[k] by {
                    assert((raw_parent + word)[i + k] == s[i + k]);
                }
            }
            assert(stands_at(raw_parent + word, word, i));
        }
    }
    assert forall|i: int| 0 <= i < open implies s[i] != '{' by {
        if i >= n + 4 {
            assert(s[i] == gap[i - n - 4]);
            assert(gap.contains(gap[i - n - 4]));
        }
    }
    assert forall|i: int| close < i < s.len() implies s[i] != '}' by {
        assert(s[i] == tail[i - close - 1]);
        assert(tail.contains(tail[i - close - 1]));
    }
    lemma_first_in_is(s, 0, n);
    lemma_first_at(s, '{', open);
    lemma_last_at(s, '}', close);
    assert(s.take(n) =~= raw_parent);
    lemma_padding_is_trimmed(raw_parent, parent);
    assert(s.subrange(open + 1, close) =~= list);
}

/// A condition without any value between the braces, or without a parent, is none.
pub proof fn lemma_condition_needs_parent_and_value(parent: Seq<char>, list: Seq<char>)
    requires
        !parent.contains('{'),
        listed_values(list).len() == 0 || all_white(parent),
    ensures
        condition_reading(condition_text(parent, list)) is Malformed,
{
    let s = condition_text(parent, list);
    let n = parent.len() as int;
    assert(s[n + 4] == '{');
    assert forall|i: int| 0 <= i < n + 4 implies s[i] != '{' by {
        if i < n {
            assert(s[i] == parent[i]);
            assert(parent.contains(parent[i]));
        }
    }
    lemma_first_at(s, '{', n + 4);
    assert(s[s.len() - 1] == '}');
    lemma_last_at(s, '}', s.len() - 1);
    assert(s.subrange(n + 5, s.len() - 1) =~= list);
    if all_white(parent) {
        assert forall|i: int| 0 <= i <= n implies all_white(#[trigger] s.take(i)) by {
            assert forall|k: int| 0 <= k < i implies white(#[trigger] s.take(i)[k]) by {
                assert(s.take(i)[k] == parent[k]);
            }
        }
        assert(in_at(s, n));
        lemma_first_in_at_most(s, 0, n);
        let at = first_in(s, 0)->Some_0;
        let none = Seq::<char>::empty();
        lemma_trimming_takes_the_padding(s.take(at), none, none);
        assert(s.take(at) + none + none =~= s.take(at));
    }
}

proof fn lemma_first_in_at_most(s: Seq<char>, from: int, at: int)
    requires
        0 <= from <= at,
        in_at(s, at),
    ensures
        first_in(s, from) matches Some(i) && from <= i <= at,
    decreases at - from,
{
    if !in_at(s, from) {
        lemma_first_in_at_most(s, from + 1, at);
    }
}

/// A definition `name {list} [default]`, as it may be written: white characters
/// belong to the name and the default, and something may stand between the values
/// and the default, and after it.
pub struct Definition {
    pub name: Seq<char>,
    pub list: Seq<char>,
    pub gap: Seq<char>,
    pub default: Seq<char>,
    pub tail: Seq<char>,
}

impl Definition {
    /// The definition as a text.
    pub open spec fn text(self) -> Seq<char> {
        self.name + seq!['{'] + self.list + seq!['}'] + self.gap + seq!['['] + self.default + seq![']'] + self.tail
    }

    /// Whether this writes a parameter of that name, domain and default.
    pub open spec fn writes(self, name: Seq<char>, domain: Seq<Seq<char>>, default: Seq<char>) -> bool {
        &&& padded(self.name, name) && lacks(self.name, seq!['{', '}', '[', ']', '|', '#']) && tidy(name)
        &&& !white(self.name[0])
        &&& writes_list(self.list, domain) && lacks(self.list, seq!['}', '[', ']', '|', '#'])
        &&& lacks(self.gap, seq!['[', ']', '|', '#'])
        &&& padded(self.default, default) && lacks(self.default, seq![']', '|', '#'])
        &&& default.len() == 0 || tidy(default)
        &&& lacks(self.tail, seq!['|', '#'])
        &&& self.tail.len() == 0 || !white(self.tail.last())
    }

    #[verifier::rlimit(40)]
    #[verifier::spinoff_prover]
    proof fn lemma_marks(self, name: Seq<char>, domain: Seq<Seq<char>>, default: Seq<char>)
        requires
            self.writes(name, domain, default),
        ensures
            ({
                let s = self.text();
                let open = self.name.len() as int;
                let close = open + 1 + self.list.len();
                let open_default = close + 1 + self.gap.len();
                let end = open_default + 1 + self.default.len();
                &&& s.index_of_first('{') == Some(open)
                &&& s.index_of_first('}') == Some(close)
                &&& s.index_of_first('[') == Some(open_default)
                &&& s.index_of_first(']') == Some(end)
                &&& trimmed(s.take(open)) == name
                &&& listed_values(s.subrange(open + 1, close)) == domain
                &&& trimmed(s.subrange(open_default + 1, end)) == default
                &&& tidy(s)
                &&& !s.contains('|')
                &&& !s.contains('#')
            }),
    {
        let s = self.text();
        let open = self.name.len() as int;
        let close = open + 1 + self.list.len();
        let open_default = close + 1 + self.gap.len();
        let end = open_default + 1 + self.default.len();
        lemma_list_reads_back(self.list, domain);
        let (m1, m2, m3, m4, m5) = (
            seq!['{', '}', '[', ']', '|', '#'],
            seq!['}', '[', ']', '|', '#'],
            seq!['[', ']', '|', '#'],
            seq![']', '|', '#'],
            seq!['|', '#'],
        );
        assert(m1[0] == '{' && m1[1] == '}' && m1[2] == '[' && m1[3] == ']' && m1[4] == '|' && m1[5] == '#');
        assert(m2[0] == '}' && m2[1] == '[' && m2[2] == ']' && m2[3] == '|' && m2[4] == '#');
        assert(m3[0] == '[' && m3[1] == ']' && m3[2] == '|' && m3[3] == '#');
        assert(m4[0] == ']' && m4[1] == '|' && m4[2] == '#');
        assert(m5[0] == '|' && m5[1] == '#');
        assert(s[open] == '{' && s[close] == '}' && s[open_default] == '[' && s[end] == ']');
        assert forall|i: int| 0 <= i < s.len() implies {
            let c = #[trigger] s[i];
            &&& i < open ==> c != '{'
            &&& i < close ==> c != '}'
            &&& i < open_default ==> c != '['
            &&& i < end ==> c != ']'
            &&& c != '|'
            &&& c != '#'
        } by {
            if i < open {
                assert(s[i] == self.name[i]);
                assert(!m1.contains(self.name[i]));
            } else if open < i < close {
                assert(s[i] == self.list[i - open - 1]);
                assert(!m2.contains(self.list[i - open - 1]));
            } else if close < i < open_default {
                assert(s[i] == self.gap[i - close - 1]);
                assert(!m3.contains(self.gap[i - close - 1]));
            } else if open_default < i < end {
                assert(s[i] == self.default[i - open_default - 1]);
                assert(!m4.contains(self.default[i - open_default - 1]));
            } else if i > end {
                assert(s[i] == self.tail[i - end - 1]);
                assert(!m5.contains(self.tail[i - end - 1]));
            }
        }
        lemma_first_at(s, '{', open);
        lemma_first_at(s, '}', close);
        lemma_first_at(s, '[', open_default);
        lemma_first_at(s, ']', end);
        assert(s.take(open) =~= self.name);
        lemma_padding_is_trimmed(self.name, name);
        assert(s.subrange(open + 1, close) =~= self.list);
        assert(s.subrange(open_default + 1, end) =~= self.default);
        lemma_padding_is_trimmed(self.default, default);
        let (a, b) = choose|a: Seq<char>, b: Seq<char>|
            all_white(a) && all_white(b) && self.name == #[trigger] (a + name + b);
        assert(self.name.len() > 0);
        assert(s[0] == self.name[0]);
        assert(s[s.len() - 1] == if self.tail.len() > 0 {
            self.tail.last()
        } else {
            ']'
        });
    }
}

/// A parameter reads as it is written: its name, all values between the braces in
/// order, and the default between the brackets, which has to be one of them.
pub proof fn lemma_parameter_reads_back(
    definition: Definition,
    name: Seq<char>,
    domain: Seq<Seq<char>>,
    default: Seq<char>,
)
    requires
        definition.writes(name, domain, default),
    ensures
        domain.contains(default) ==> line_reading(definition.text()) == LineReading::Param(
            ParamView { name, domain, default, condition: None },
        ),
        !domain.contains(default) ==> line_reading(definition.text()) == (LineReading::DefaultNotInDomain {
            default,
            domain,
            name,
        }),
{
    definition.lemma_marks(name, domain, default);
    let s = definition.text();
    s.index_of_first_ensures('{');
    s.index_of_first_ensures('[');
    s.index_of_first_ensures('|');
    s.index_of_first_ensures('#');
    lemma_tidy_is_trimmed(s);
}

/// A parameter with a condition reads as the parameter without it, and the
/// condition as what follows the bar says; what follows the bar has to be a
/// condition.
pub proof fn lemma_conditional_parameter_reads_back(
    definition: Definition,
    name: Seq<char>,
    domain: Seq<Seq<char>>,
    default: Seq<char>,
    before_bar: Seq<char>,
    after_bar: Seq<char>,
    condition: Seq<char>,
)
    requires
        definition.writes(name, domain, default),
        all_white(before_bar),
        all_white(after_bar),
        tidy(condition),
        !condition.contains('#'),
    ensures
        ({
            let line = definition.text() + before_bar + seq!['|'] + after_bar + condition;
            if !domain.contains(default) {
                line_reading(line) == (LineReading::DefaultNotInDomain { default, domain, name })
            } else {
                match condition_reading(condition) {
                    ConditionReading::Condition(c) => line_reading(line) == LineReading::Param(
                        ParamView { name, domain, default, condition: Some(c) },
                    ),
                    ConditionReading::Malformed => line_reading(line) == LineReading::MalformedCondition(
                        condition,
                    ),
                }
            }
        }),
{
    let def = definition.text();
    let bar = (def.len() + before_bar.len()) as int;
    let line = def + before_bar + seq!['|'] + after_bar + condition;
    definition.lemma_marks(name, domain, default);
    def.index_of_first_ensures('{');
    def.index_of_first_ensures('[');
    assert(line[bar] == '|');
    assert forall|i: int| 0 <= i < line.len() implies line[i] != '#' && (i < bar ==> line[i] != '|') by {
        if i < def.len() {
            assert(line[i] == def[i]);
            assert(def.contains(def[i]));
        } else if i < bar {
            assert(line[i] == before_bar[i - def.len()]);
            assert(white(before_bar[i - def.len()]));
        } else if i > bar && i <= bar + after_bar.len() {
            assert(line[i] == after_bar[i - bar - 1]);
            assert(white(after_bar[i - bar - 1]));
        } else if i > bar {
            assert(line[i] == condition[i - bar - 1 - after_bar.len()]);
            assert(condition.contains(condition[i - bar - 1 - after_bar.len()]));
        }
    }
    lemma_first_at(line, '|', bar);
    line.index_of_first_ensures('#');
    assert(line[def.index_of_first('{')->Some_0] == '{');
    assert(line[def.index_of_first('[')->Some_0] == '[');
    assert(line.contains('{') && line.contains('['));
    assert(line[0] == def[0] && line.last() == condition.last());
    lemma_tidy_is_trimmed(line);
    let none = Seq::<char>::empty();
    assert(line.take(bar) =~= none + def + before_bar);
    assert(line.skip(bar + 1) =~= after_bar + condition + none);
    lemma_trimming_takes_the_padding(none, def, before_bar);
    lemma_trimming_takes_the_padding(after_bar, condition, none);
}

/// A line that begins a definition and lacks one of its delimiters, or has no name,
/// says nothing.
pub proof fn lemma_incomplete_definition_says_nothing(line: Seq<char>)
    requires
        tidy(line),
        !line.contains('#'),
        !line.contains('|'),
        line.contains('['),
        !line.contains('}') || !line.contains(']') || line[0] == '{',
    ensures
        line_reading(line) is Nothing,
{
    line.index_of_first_ensures('#');
    line.index_of_first_ensures('|');
    line.index_of_first_ensures('{');
    line.index_of_first_ensures('}');
    line.index_of_first_ensures('[');
    line.index_of_first_ensures(']');
    lemma_tidy_is_trimmed(line);
    if line[0] == '{' {
        lemma_first_at(line, '{', 0);
        assert(line.take(0) =~= Seq::empty());
        lemma_tidy_is_trimmed(line.take(0));
    }
}

/// A condition on a line of its own reads as the condition for the name before
/// the bar, and as nothing where it is no condition.
pub proof fn lemma_standalone_condition_reads_back(
    name: Seq<char>,
    before_bar: Seq<char>,
    after_bar: Seq<char>,
    condition: Seq<char>,
)
    requires
        tidy(name),
        lacks(name, seq!['{', '[', '|', '#']),
        all_white(before_bar),
        all_white(after_bar),
        tidy(condition),
        !condition.contains('#'),
        !condition.contains('['),
        condition.contains('{'),
    ensures
        ({
            let line = name + before_bar + seq!['|'] + after_bar + condition;
            match condition_reading(condition) {
                ConditionReading::Condition(c) => line_reading(line) == (LineReading::Condition {
                    name,
                    condition: c,
                }),
                ConditionReading::Malformed => line_reading(line) is Nothing,
            }
        }),
{
    let bar = (name.len() + before_bar.len()) as int;
    let line = name + before_bar + seq!['|'] + after_bar + condition;
    let marks = seq!['{', '[', '|', '#'];
    assert(marks[0] == '{' && marks[1] == '[' && marks[2] == '|' && marks[3] == '#');
    assert(line[bar] == '|');
    assert forall|i: int| 0 <= i < line.len() implies line[i] != '#' && line[i] != '[' && (i < bar
        ==> line[i] != '|' && line[i] != '{') by {
        if i < name.len() {
            assert(line[i] == name[i]);
            assert(!marks.contains(name[i]));
        } else if i < bar {
            assert(line[i] == before_bar[i - name.len()]);
            assert(white(before_bar[i - name.len()]));
        } else if i > bar && i <= bar + after_bar.len() {
            assert(line[i] == after_bar[i - bar - 1]);
            assert(white(after_bar[i - bar - 1]));
        } else if i > bar {
            assert(line[i] == condition[i - bar - 1 - after_bar.len()]);
            assert(condition.contains(condition[i - bar - 1 - after_bar.len()]));
        }
    }
    lemma_first_at(line, '|', bar);
    line.index_of_first_ensures('#');
    condition.index_of_first_ensures('{');
    assert(line[bar + 1 + after_bar.len() + condition.index_of_first('{')->Some_0] == '{');
    assert(line.contains('{') && !line.contains('['));
    assert(line[0] == name[0] && line.last() == condition.last());
    lemma_tidy_is_trimmed(line);
    let none = Seq::<char>::empty();
    assert(line.take(bar) =~= none + name + before_bar);
    assert(line.skip(bar + 1) =~= after_bar + condition + none);
    lemma_trimming_takes_the_padding(none, name, before_bar);
    lemma_trimming_takes_the_padding(after_bar, condition, none);
    assert(!name.contains('{')) by {
        assert forall|i: int| 0 <= i < name.len() implies name[i] != '{' by {
            assert(!marks.contains(name[i]));
        }
    }
}

/// Values written with a comma and a blank between them are a written list.
pub proof fn lemma_plain_list_is_written(values: Seq<Seq<char>>)
    requires
        forall|i: int|
            0 <= i < values.len() ==> tidy(#[trigger] values[i]) && !values[i].contains(','),
    ensures
        writes_list(joined(values, seq![',', ' ']), values),
{
    let raws = Seq::new(
        values.len(),
        |i: int|
            if i == 0 {
                values[i]
            } else {
                seq![' '] + values[i]
            },
    );
    let none = Seq::<char>::empty();
    assert forall|i: int| 0 <= i < raws.len() implies !(#[trigger] raws[i]).contains(',') && padded(
        raws[i],
        values[i],
    ) && tidy(values[i]) by {
        let v = values[i];
        assert(tidy(v));
        if i == 0 {
            assert(raws[i] =~= none + v + none);
        } else {
            assert(raws[i] =~= seq![' '] + v + none);
            assert forall|k: int| 0 <= k < raws[i].len() implies raws[i][k] != ',' by {
                if k > 0 {
                    assert(raws[i][k] == v[k - 1]);
                    assert(v.contains(v[k - 1]));
                }
            }
        }
    }
    assert(writes_values(raws, values));
    lemma_blanks_move_to_the_values(values, raws);
}

proof fn lemma_blanks_move_to_the_values(values: Seq<Seq<char>>, raws: Seq<Seq<char>>)
    requires
        raws.len() == values.len(),
        raws.len() > 0 ==> raws[0] == values[0],
        forall|i: int| 0 < i < raws.len() ==> #[trigger] raws[i] == seq![' '] + values[i],
    ensures
        joined(values, seq![',', ' ']) == joined(raws, seq![',']),
    decreases values.len(),
{
    if values.len() > 1 {
        lemma_blanks_move_to_the_values(values.drop_last(), raws.drop_last());
        assert(raws[raws.len() - 1] == seq![' '] + values.last());
        assert(joined(values, seq![',', ' ']) =~= joined(raws, seq![',']));
    }
}

/// Given a parent and values, the text `parent in {v1, v2, ..., vn}` reads as the
/// condition with that parent and exactly those values, in order.
pub proof fn lemma_written_condition_reads_back(parent: Seq<char>, values: Seq<Seq<char>>)
    requires
        tidy(parent),
        !parent.contains('{'),
        !holds_in(parent),
        values.len() > 0,
        forall|i: int|
            0 <= i < values.len() ==> tidy(#[trigger] values[i]) && !values[i].contains(','),
    ensures
        condition_reading(condition_text(parent, joined(values, seq![',', ' ']))) == ConditionReading::Condition(
            ConditionView { parent, allowed_values: values },
        ),
{
    lemma_plain_list_is_written(values);
    let none = Seq::<char>::empty();
    assert(parent =~= none + parent + none);
    assert(padded(parent, parent));
    lemma_condition_reads_back(parent, parent, none, joined(values, seq![',', ' ']), none, values);
}

/// Whether the word `in` stands nowhere in a text between two blanks.
pub open spec fn lacks_in(s: Seq<char>) -> bool {
    let word = seq![' ', 'i', 'n', ' '];
    forall|i: int| !(#[trigger] stands_at(s, word, i))
}

/// A text without the word `in` or without a brace of either kind is no condition.
pub proof fn lemma_incomplete_condition_is_malformed(s: Seq<char>)
    requires
        !s.contains('{') || !s.contains('}') || lacks_in(s),
    ensures
        condition_reading(s) is Malformed,
{
    s.index_of_first_ensures('{');
    s.index_of_last_ensures('}');
    if lacks_in(s) {
        let word = seq![' ', 'i', 'n', ' '];
        assert forall|i: int| !in_at(s, i) by {
            if in_at(s, i) {
                assert(s.subrange(i, i + 4) =~= word);
                assert(stands_at(s, word, i));
            }
        }
        lemma_first_in_none(s, 0);
    }
}

proof fn lemma_first_in_none(s: Seq<char>, from: int)
    requires
        forall|i: int| !in_at(s, i),
    ensures
        first_in(s, from) is None,
    decreases s.len() - from,
{
    if from + 4 <= s.len() {
        lemma_first_in_none(s, from + 1);
    }
}

/// The text `name=value`.
pub open spec fn binding_text(name: Seq<char>, value: Seq<char>) -> Seq<char> {
    name + seq!['='] + value
}

/// The pairs of two lists with a comma between them are the pairs of the one and
/// then those of the other.
pub proof fn lemma_lists_of_pairs_add_up(a: Seq<char>, b: Seq<char>)
    ensures
        bindings(a + seq![','] + b) == bindings(a) + bindings(b),
{
    lemma_pieces_of_two_texts(a, ',', b);
    lemma_filter_map_of_two(pieces(a, ','), pieces(b, ','), |p: Seq<char>| binding(p));
}

proof fn lemma_filter_map_of_two(
    a: Seq<Seq<char>>,
    b: Seq<Seq<char>>,
    f: spec_fn(Seq<char>) -> Option<(Seq<char>, Seq<char>)>,
)
    ensures
        (a + b).filter_map(f) == a.filter_map(f) + b.filter_map(f),
    decreases b.len(),
{
    if b.len() == 0 {
        assert(a + b =~= a);
        assert(a.filter_map(f) + b.filter_map(f) =~= a.filter_map(f));
    } else {
        lemma_filter_map_of_two(a, b.drop_last(), f);
        assert((a + b).drop_last() =~= a + b.drop_last());
        assert((a + b).filter_map(f) =~= a.filter_map(f) + b.filter_map(f));
    }
}

/// A text without a comma holds the pair of what stands before and after the first
/// equals sign, each without the white characters round it.
pub proof fn lemma_single_pair_is_read(
    raw_name: Seq<char>,
    name: Seq<char>,
    raw_value: Seq<char>,
    value: Seq<char>,
)
    requires
        !binding_text(raw_name, raw_value).contains(','),
        padded(raw_name, name),
        padded(raw_value, value),
        tidy(name),
        !name.contains('='),
        value.len() == 0 || tidy(value),
    ensures
        bindings(binding_text(raw_name, raw_value)) == seq![(name, value)],
{
    let raw = binding_text(raw_name, raw_value);
    let (a, b) = choose|a: Seq<char>, b: Seq<char>|
        all_white(a) && all_white(b) && raw_name == #[trigger] (a + name + b);
    let (c, d) = choose|c: Seq<char>, d: Seq<char>|
        all_white(c) && all_white(d) && raw_value == #[trigger] (c + value + d);
    let none = Seq::<char>::empty();
    let n = (name.len() + b.len()) as int;
    // What is left once the white characters at either end are gone.
    let (t, rest) = if value.len() > 0 {
        (name + b + seq!['='] + c + value, d)
    } else {
        (name + b + seq!['='], c + d)
    };
    assert forall|i: int| 0 <= i < rest.len() implies white(#[trigger] rest[i]) by {
        if value.len() == 0 {
            if i < c.len() {
                assert(white(c[i]));
            } else {
                assert(white(d[i - c.len()]));
            }
        }
    }
    assert(raw =~= a + t + rest);
    assert(t[0] == name[0]);
    assert(t[t.len() - 1] == if value.len() == 0 {
        '='
    } else {
        value[value.len() - 1]
    });
    lemma_trimming_takes_the_padding(a, t, rest);
    assert(t[n] == '=');
    assert forall|j: int| 0 <= j < n implies t[j] != '=' by {
        if j < name.len() {
            assert(t[j] == name[j]);
            assert(name.contains(name[j]));
        } else {
            assert(t[j] == b[j - name.len()]);
            assert(white(b[j - name.len()]));
        }
    }
    lemma_first_at(t, '=', n);
    assert(t.take(n) =~= none + name + b);
    lemma_trimming_takes_the_padding(none, name, b);
    if value.len() > 0 {
        assert(t.skip(n + 1) =~= c + value + none);
        lemma_trimming_takes_the_padding(c, value, none);
    } else {
        assert(t.skip(n + 1) =~= none);
        lemma_tidy_is_trimmed(none);
        assert(value =~= none);
    }
    lemma_pieces_of_two_texts(Seq::empty(), ',', raw);
    let f = |p: Seq<char>| binding(p);
    Seq::lemma_filter_map_singleton(raw, f);
    assert(bindings(raw) =~= seq![(name, value)]);
}

/// A text without a comma whose first equals sign has only white characters before
/// it holds no pair.
pub proof fn lemma_no_pair_without_a_name(raw_name: Seq<char>, value: Seq<char>)
    requires
        !binding_text(raw_name, value).contains(','),
        all_white(raw_name),
        value.len() == 0 || !white(value.last()),
    ensures
        bindings(binding_text(raw_name, value)) == Seq::<(Seq<char>, Seq<char>)>::empty(),
{
    let raw = binding_text(raw_name, value);
    let none = Seq::<char>::empty();
    let t = seq!['='] + value;
    assert(raw =~= raw_name + t + none);
    assert(t[0] == '=');
    assert(t[t.len() - 1] == if value.len() == 0 {
        '='
    } else {
        value.last()
    });
    lemma_trimming_takes_the_padding(raw_name, t, none);
    lemma_first_at(t, '=', 0);
    assert(t.take(0) =~= none);
    lemma_tidy_is_trimmed(none);
    lemma_pieces_of_two_texts(Seq::empty(), ',', raw);
    Seq::lemma_filter_map_singleton(raw, |p: Seq<char>| binding(p));
    assert(bindings(raw) =~= Seq::empty());
}

/// A text without a comma and without an equals sign holds no pair.
pub proof fn lemma_no_pair_without_equals(raw: Seq<char>)
    requires
        !raw.contains(','),
        !raw.contains('='),
    ensures
        bindings(raw) == Seq::<(Seq<char>, Seq<char>)>::empty(),
{
    let (a, b) = crate::text::lemma_trimming_leaves_a_tidy_text(raw);
    let t = trimmed(raw);
    t.index_of_first_ensures('=');
    if t.contains('=') {
        let i = t.index_of_first('=')->Some_0;
        assert(raw[a.len() + i] == '=');
    }
    lemma_pieces_of_two_texts(Seq::empty(), ',', raw);
    Seq::lemma_filter_map_singleton(raw, |p: Seq<char>| binding(p));
    assert(bindings(raw) =~= Seq::empty());
}

/// Whether a text writes a pair: `name=value`, with white characters round either,
/// and without a comma in it.
pub open spec fn writes_pair(raw: Seq<char>, pair: (Seq<char>, Seq<char>)) -> bool {
    &&& !raw.contains(',')
    &&& tidy(pair.0)
    &&& !pair.0.contains('=')
    &&& pair.1.len() == 0 || tidy(pair.1)
    &&& exists|raw_name: Seq<char>, raw_value: Seq<char>|
        padded(raw_name, pair.0) && padded(raw_value, pair.1) && raw == #[trigger] binding_text(
            raw_name,
            raw_value,
        )
}

/// Whether texts write pairs.
pub open spec fn writes_pairs(raws: Seq<Seq<char>>, combo: Seq<(Seq<char>, Seq<char>)>) -> bool {
    &&& raws.len() == combo.len()
    &&& forall|i: int| 0 <= i < raws.len() ==> #[trigger] writes_pair(raws[i], combo[i])
}

proof fn lemma_pairs_read_back(raws: Seq<Seq<char>>, combo: Seq<(Seq<char>, Seq<char>)>)
    requires
        writes_pairs(raws, combo),
        raws.len() > 0,
    ensures
        bindings(joined(raws, seq![','])) == combo,
    decreases raws.len(),
{
    let last = raws.len() - 1;
    let pair = combo[last];
    assert(writes_pair(raws[last], pair));
    let (raw_name, raw_value) = choose|raw_name: Seq<char>, raw_value: Seq<char>|
        padded(raw_name, pair.0) && padded(raw_value, pair.1) && raws[last] == #[trigger] binding_text(
            raw_name,
            raw_value,
        );
    lemma_single_pair_is_read(raw_name, pair.0, raw_value, pair.1);
    let shorter = raws.drop_last();
    if shorter.len() > 0 {
        assert forall|i: int| 0 <= i < shorter.len() implies #[trigger] writes_pair(
            shorter[i],
            combo.drop_last()[i],
        ) by {
            assert(writes_pair(raws[i], combo[i]));
        }
        lemma_pairs_read_back(shorter, combo.drop_last());
        lemma_lists_of_pairs_add_up(joined(shorter, seq![',']), raws[last]);
    } else {
        assert(joined(raws, seq![',']) == raws[0]);
    }
    assert(bindings(joined(raws, seq![','])) =~= combo);
}

/// A forbidden combination reads as it is written: every pair between the braces,
/// in order. What stands before and after the braces does not count.
pub proof fn lemma_forbidden_combination_reads_back(
    front: Seq<char>,
    raws: Seq<Seq<char>>,
    combo: Seq<(Seq<char>, Seq<char>)>,
    tail: Seq<char>,
)
    requires
        writes_pairs(raws, combo),
        raws.len() > 0,
        lacks(front, seq!['{', '[', '|', '#']),
        lacks(joined(raws, seq![',']), seq!['[', '|', '#']),
        lacks(tail, seq!['}', '[', '|', '#']),
        front.len() == 0 || !white(front[0]),
        tail.len() == 0 || !white(tail.last()),
    ensures
        line_reading(front + seq!['{'] + joined(raws, seq![',']) + seq!['}'] + tail) == LineReading::Forbidden(
            combo,
        ),
{
    lemma_pairs_read_back(raws, combo);
    lemma_braces_read_as_pairs(front, joined(raws, seq![',']), tail);
}

/// A line with braces but neither bracket nor bar forbids the pairs between the
/// braces, and says nothing if there are none.
pub proof fn lemma_braces_read_as_pairs(front: Seq<char>, list: Seq<char>, tail: Seq<char>)
    requires
        lacks(front, seq!['{', '[', '|', '#']),
        lacks(list, seq!['[', '|', '#']),
        lacks(tail, seq!['}', '[', '|', '#']),
        front.len() == 0 || !white(front[0]),
        tail.len() == 0 || !white(tail.last()),
    ensures
        ({
            let line = front + seq!['{'] + list + seq!['}'] + tail;
            &&& bindings(list).len() > 0 ==> line_reading(line) == LineReading::Forbidden(bindings(list))
            &&& bindings(list).len() == 0 ==> line_reading(line) is Nothing
        }),
{
    let line = front + seq!['{'] + list + seq!['}'] + tail;
    let open = front.len() as int;
    let close = open + 1 + list.len();
    let (m1, m2, m3) = (seq!['{', '[', '|', '#'], seq!['[', '|', '#'], seq!['}', '[', '|', '#']);
    assert(m1[0] == '{' && m1[1] == '[' && m1[2] == '|' && m1[3] == '#');
    assert(m2[0] == '[' && m2[1] == '|' && m2[2] == '#');
    assert(m3[0] == '}' && m3[1] == '[' && m3[2] == '|' && m3[3] == '#');
    assert(line[open] == '{');
    assert(line[close] == '}');
    assert forall|i: int| 0 <= i < line.len() implies {
        let c = #[trigger] line[i];
        &&& i < open ==> c != '{'
        &&& i > close ==> c != '}'
        &&& c != '['
        &&& c != '|'
        &&& c != '#'
    } by {
        if i < open {
            assert(line[i] == front[i]);
            assert(!m1.contains(front[i]));
        } else if open < i < close {
            assert(line[i] == list[i - open - 1]);
            assert(!m2.contains(list[i - open - 1]));
        } else if i > close {
            assert(line[i] == tail[i - close - 1]);
            assert(!m3.contains(tail[i - close - 1]));
        }
    }
    lemma_first_at(line, '{', open);
    lemma_last_at(line, '}', close);
    line.index_of_first_ensures('#');
    line.index_of_first_ensures('|');
    assert(line.contains('{'));
    assert(tidy(line)) by {
        assert(line[0] == if front.len() > 0 {
            front[0]
        } else {
            '{'
        });
        assert(line[line.len() - 1] == if tail.len() > 0 {
            tail.last()
        } else {
            '}'
        });
    }
    lemma_tidy_is_trimmed(line);
    assert(line.subrange(open + 1, close) =~= list);
}

/// White characters round a line change nothing of what it says.
pub proof fn lemma_padding_does_not_matter(a: Seq<char>, line: Seq<char>, b: Seq<char>)
    requires
        all_white(a),
        all_white(b),
        tidy(line),
        !line.contains('#'),
    ensures
        line_reading(a + line + b) == line_reading(line),
{
    let s = a + line + b;
    assert forall|i: int| 0 <= i < s.len() implies s[i] != '#' by {
        if i < a.len() {
            assert(white(a[i]));
            assert(s[i] == a[i]);
        } else if i < a.len() + line.len() {
            assert(s[i] == line[i - a.len()]);
            assert(line.contains(line[i - a.len()]));
        } else {
            assert(white(b[i - a.len() - line.len()]));
        }
    }
    s.index_of_first_ensures('#');
    line.index_of_first_ensures('#');
    lemma_trimming_takes_the_padding(a, line, b);
    lemma_tidy_is_trimmed(line);
}

/// A line without an opening brace says nothing.
pub proof fn lemma_line_without_braces_says_nothing(line: Seq<char>)
    requires
        !line.contains('{'),
    ensures
        line_reading(line) is Nothing,
{
    line.index_of_first_ensures('#');
    let u = uncommented(line);
    let (a, b) = crate::text::lemma_trimming_leaves_a_tidy_text(u);
    let t = trimmed(u);
    if t.contains('{') {
        t.index_of_first_ensures('{');
        let i = t.index_of_first('{')->Some_0;
        assert(u[a.len() + i] == '{');
        assert(line[a.len() + i] == '{');
    }
}

/// One more line adds what it says and leaves the rest as it is: a parameter comes
/// after the others, a forbidden combination after the others, and a line that is
/// wrong is reported with its number, counted from one.
pub proof fn lemma_lines_add_to_the_space(lines: Seq<Seq<char>>, n: nat, s: SpaceView)
    requires
        n < lines.len(),
        reading_of_lines(lines, n) == Reading::Space(s),
    ensures
        match line_reading(lines[n as int]) {
            LineReading::Nothing => reading_of_lines(lines, n + 1) == Reading::Space(s),
            LineReading::Param(p) => reading_of_lines(lines, n + 1) matches Reading::Space(t) && t.params
                == s.params.push(p) && t.forbidden == s.forbidden,
            LineReading::Forbidden(c) => reading_of_lines(lines, n + 1) matches Reading::Space(t) && t.params
                == s.params && t.forbidden == s.forbidden.push(c),
            LineReading::DefaultNotInDomain { default, domain, name } => reading_of_lines(lines, n + 1)
                == (Reading::DefaultNotInDomain { line: n + 1, default, domain, name }),
            LineReading::MalformedCondition(condition) => reading_of_lines(lines, n + 1)
                == (Reading::MalformedCondition { line: n + 1, condition }),
            LineReading::Misordered => reading_of_lines(lines, n + 1) == (Reading::Misordered { line: n + 1 }),
            LineReading::Condition { .. } => reading_of_lines(lines, n + 1) is Space,
        },
{
}

/// A condition on a line of its own goes to the first parameter of its name, in
/// place of the condition that it had, and changes nothing else.
pub proof fn lemma_condition_goes_to_its_parameter(
    lines: Seq<Seq<char>>,
    n: nat,
    s: SpaceView,
    name: Seq<char>,
    condition: ConditionView,
    i: int,
)
    requires
        n < lines.len(),
        reading_of_lines(lines, n) == Reading::Space(s),
        line_reading(lines[n as int]) == (LineReading::Condition { name, condition }),
        0 <= i < s.params.len(),
    ensures
        reading_of_lines(lines, n + 1) is Space,
        ({
            let t = reading_of_lines(lines, n + 1)->Space_0;
            let first = s.params[i].name == name && (forall|j: int|
                0 <= j < i ==> (#[trigger] s.params[j]).name != name);
            &&& t.forbidden == s.forbidden
            &&& t.params.len() == s.params.len()
            &&& t.params[i].name == s.params[i].name
            &&& t.params[i].domain == s.params[i].domain
            &&& t.params[i].default == s.params[i].default
            &&& first ==> t.params[i].condition == Some(condition)
            &&& !first ==> t.params[i].condition == s.params[i].condition
        }),
{
    let names = s.params.map_values(|p: ParamView| p.name);
    names.index_of_first_ensures(name);
    if let Some(k) = names.index_of_first(name) {
        assert(s.params[k].name == names[k]);
        if i < k {
            assert(names[i] != name);
        }
        if i == k {
            assert forall|j: int| 0 <= j < i implies (#[trigger] s.params[j]).name != name by {
                assert(names[j] != name);
            }
        }
    } else {
        assert(names[i] == s.params[i].name);
        assert(names.contains(names[i]));
    }
}

/// The first line that is wrong decides: no later line changes what is reported.
pub proof fn lemma_first_wrong_line_is_reported(lines: Seq<Seq<char>>, m: nat, n: nat)
    requires
        m <= n,
        !(reading_of_lines(lines, m) is Space),
    ensures
        reading_of_lines(lines, n) == reading_of_lines(lines, m),
    decreases n,
{
    if m < n {
        lemma_first_wrong_line_is_reported(lines, m, (n - 1) as nat);
    }
}

/// A text of lines each of which writes a parameter reads as the space of those
/// parameters, in order.
pub proof fn lemma_text_of_parameters_reads_back(lines: Seq<Seq<char>>, params: Seq<ParamView>)
    requires
        lines.len() == params.len(),
        forall|i: int|
            0 <= i < lines.len() ==> !(#[trigger] lines[i]).contains('\n') && (lines[i].len() == 0
                || lines[i].last() != '\r') && line_reading(lines[i]) == LineReading::Param(params[i]),
    ensures
        reading(written_lines(lines)) == Reading::Space(SpaceView { params, forbidden: Seq::empty() }),
{
    lemma_lines_read_back(lines);
    lemma_parameters_read_back(lines, params, lines.len());
    assert(params.take(lines.len() as int) =~= params);
}

proof fn lemma_parameters_read_back(lines: Seq<Seq<char>>, params: Seq<ParamView>, n: nat)
    requires
        lines.len() == params.len(),
        n <= lines.len(),
        forall|i: int| 0 <= i < lines.len() ==> line_reading(#[trigger] lines[i]) == LineReading::Param(params[i]),
    ensures
        reading_of_lines(lines, n) == Reading::Space(
            SpaceView { params: params.take(n as int), forbidden: Seq::empty() },
        ),
    decreases n,
{
    if n > 0 {
        lemma_parameters_read_back(lines, params, (n - 1) as nat);
        assert(line_reading(lines[n - 1]) == LineReading::Param(params[n - 1]));
        assert(params.take(n as int) =~= params.take(n - 1).push(params[n - 1]));
    } else {
        assert(params.take(0) =~= Seq::empty());
    }
}

/// What follows a `#` changes nothing of what a line says.
pub proof fn lemma_comments_do_not_matter(line: Seq<char>, comment: Seq<char>)
    requires
        !line.contains('#'),
    ensures
        line_reading(line + seq!['#'] + comment) == line_reading(line),
{
    let long = line + seq!['#'] + comment;
    line.index_of_first_ensures('#');
    long.index_of_first_ensures('#');
    assert(long[line.len() as int] == '#');
    assert(long.contains('#'));
    let i = long.index_of_first('#')->Some_0;
    if i < line.len() {
        assert(long[i] == line[i]);
        assert(line.contains('#'));
    }
    assert(long.take(i) =~= line);
}

/// What was read of a condition text.
enum ReadCondition {
    Condition(Condition),
    Malformed,
}

impl View for ReadCondition {
    type V = ConditionReading;

    closed spec fn view(&self) -> ConditionReading {
        match *self {
            ReadCondition::Condition(c) => ConditionReading::Condition(c@),
            ReadCondition::Malformed => ConditionReading::Malformed,
        }
    }
}

/// What was read of one line.
enum ReadLine {
    Nothing,
    Forbidden(Forbidden),
    Condition { name: String, condition: Condition },
    Param(Param),
    DefaultNotInDomain { default: String, domain: Vec<String>, name: String },
    MalformedCondition(String),
    Misordered,
}

impl View for ReadLine {
    type V = LineReading;

    closed spec fn view(&self) -> LineReading {
        match *self {
            ReadLine::Nothing => LineReading::Nothing,
            ReadLine::Forbidden(combo) => LineReading::Forbidden(pair_views(combo@)),
            ReadLine::Condition { name, condition } => LineReading::Condition {
                name: name@,
                condition: condition@,
            },
            ReadLine::Param(p) => LineReading::Param(p@),
            ReadLine::DefaultNotInDomain {
                default,
                domain,
                name,
            } => LineReading::DefaultNotInDomain {
                default: default@,
                domain: texts(domain@),
                name: name@,
            },
            ReadLine::MalformedCondition(c) => LineReading::MalformedCondition(c@),
            ReadLine::Misordered => LineReading::Misordered,
        }
    }
}

/// What was read of a whole text.
enum ReadText {
    Space(ParamSpace),
    Error(ParamError),
    Misordered(usize),
}

impl View for ReadText {
    type V = Reading;

    closed spec fn view(&self) -> Reading {
        match *self {
            ReadText::Space(s) => Reading::Space(s@),
            ReadText::Error(e) => e.reading(),
            ReadText::Misordered(line) => Reading::Misordered { line: line as nat },
        }
    }
}

impl ParamError {
    /// What a text says that gives this error.
    pub open spec fn reading(self) -> Reading {
        match self {
            ParamError::DefaultNotInDomain {
                line,
                default,
                domain,
                name,
            } => Reading::DefaultNotInDomain {
                line: line as nat,
                default: default@,
                domain: texts(domain@),
                name: name@,
            },
            ParamError::MalformedCondition { line, condition } => Reading::MalformedCondition {
                line: line as nat,
                condition: condition@,
            },
        }
    }
}

fn strip_comment(line: &Vec<char>) -> (r: Vec<char>)
    ensures
        r@ == uncommented(line@),
{
    match find(line, '#') {
        Some(i) => {
            let r = slice_of(line, 0, i);
            assert(r@ =~= line@.take(i as int));
            r
        },
        None => copy_of(line),
    }
}

fn head_of(v: &Vec<char>, to: usize) -> (r: Vec<char>)
    requires
        to <= v.len(),
    ensures
        r@ == v@.take(to as int),
{
    let r = slice_of(v, 0, to);
    assert(r@ =~= v@.take(to as int));
    r
}

fn tail_of(v: &Vec<char>, from: usize) -> (r: Vec<char>)
    requires
        from <= v.len(),
    ensures
        r@ == v@.skip(from as int),
{
    let r = slice_of(v, from, v.len());
    assert(r@ =~= v@.skip(from as int));
    r
}

fn read_values(s: &Vec<char>) -> (r: Vec<String>)
    ensures
        texts(r@) == listed_values(s@),
{
    let parts = split(s, ',');
    let mut out: Vec<String> = Vec::new();
    let ghost pred = |v: Seq<char>| v.len() > 0;
    let ghost all = pieces(s@, ',').map_values(|p: Seq<char>| trimmed(p));
    assert(all.take(0).filter(pred) =~= Seq::empty());
    for i in 0..parts.len()
        invariant
            rows(parts@) == pieces(s@, ','),
            all == pieces(s@, ',').map_values(|p: Seq<char>| trimmed(p)),
            pred == (|v: Seq<char>| v.len() > 0),
            texts(out@) == all.take(i as int).filter(pred),
    {
        let value = trim(&parts[i]);
        let ghost prev = texts(out@);
        proof {
            assert(rows(parts@)[i as int] == parts@[i as int]@);
            assert(all.take(i + 1) =~= all.take(i as int).push(value@));
            all.take(i as int).lemma_filter_push(value@, pred);
        }
        if value.len() > 0 {
            out.push(string_of(&value));
            assert(texts(out@) =~= prev.push(value@));
        }
    }
    assert(all.take(all.len() as int) =~= all);
    out
}

fn read_binding(s: &Vec<char>) -> (r: Option<(String, String)>)
    ensures
        match r {
            Some(p) => binding(s@) == Some((p.0@, p.1@)),
            None => binding(s@) is None,
        },
{
    let t = trim(s);
    match find(&t, '=') {
        Some(i) => {
            let name = trim(&head_of(&t, i));
            if name.len() == 0 {
                None
            } else {
                let value = trim(&tail_of(&t, i + 1));
                Some((string_of(&name), string_of(&value)))
            }
        },
        None => None,
    }
}

fn read_bindings(s: &Vec<char>) -> (r: Forbidden)
    ensures
        pair_views(r@) == bindings(s@),
{
    let parts = split(s, ',');
    let mut out: Forbidden = Vec::new();
    let ghost f = |p: Seq<char>| binding(p);
    let ghost all = pieces(s@, ',');
    assert(all.take(0).filter_map(f) =~= Seq::empty());
    for i in 0..parts.len()
        invariant
            rows(parts@) == all,
            all == pieces(s@, ','),
            f == (|p: Seq<char>| binding(p)),
            pair_views(out@) == all.take(i as int).filter_map(f),
    {
        let ghost prev = pair_views(out@);
        proof {
            assert(rows(parts@)[i as int] == parts@[i as int]@);
            all.lemma_filter_map_take_succ(f, i as int);
        }
        match read_binding(&parts[i]) {
            Some(p) => {
                let ghost v = (p.0@, p.1@);
                out.push(p);
                assert(pair_views(out@) =~= prev.push(v));
                assert(all.take(i + 1).filter_map(f) =~= prev.push(v));
            },
            None => {
                assert(all.take(i + 1).filter_map(f) =~= prev);
            },
        }
    }
    assert(all.take(all.len() as int) =~= all);
    out
}

fn find_in(s: &Vec<char>) -> (r: Option<usize>)
    ensures
        match r {
            Some(i) => first_in(s@, 0) == Some(i as int) && i + 4 <= s.len(),
            None => first_in(s@, 0) is None,
        },
{
    let mut i: usize = 0;
    while s.len() >= 4 && i <= s.len() - 4
        invariant
            i <= s.len(),
            first_in(s@, 0) == first_in(s@, i as int),
        decreases s.len() - i,
    {
        if s[i] == ' ' && s[i + 1] == 'i' && s[i + 2] == 'n' && s[i + 3] == ' ' {
            return Some(i);
        }
        i += 1;
    }
    None
}

fn read_condition(s: &Vec<char>) -> (r: ReadCondition)
    ensures
        r@ == condition_reading(s@),
{
    let at = match find_in(s) {
        Some(at) => at,
        None => return ReadCondition::Malformed,
    };
    let parent = trim(&head_of(s, at));
    let open = match find(s, '{') {
        Some(i) => i,
        None => return ReadCondition::Malformed,
    };
    let close = match find_last(s, '}') {
        Some(i) => i,
        None => return ReadCondition::Malformed,
    };
    proof {
        s@.index_of_first_ensures('{');
        s@.index_of_last_ensures('}');
    }
    if close < open {
        return ReadCondition::Malformed;
    }
    let allowed_values = read_values(&slice_of(s, open + 1, close));
    assert(texts(allowed_values@).len() == allowed_values@.len());
    if parent.len() == 0 || allowed_values.len() == 0 {
        ReadCondition::Malformed
    } else {
        ReadCondition::Condition(Condition { parent: string_of(&parent), allowed_values })
    }
}

fn read_forbidden(line: &Vec<char>) -> (r: ReadLine)
    ensures
        r@ == forbidden_reading(line@),
{
    match (find(line, '{'), find_last(line, '}')) {
        (Some(open), Some(close)) => {
            proof {
                line@.index_of_first_ensures('{');
                line@.index_of_last_ensures('}');
            }
            if close < open {
                return ReadLine::Misordered;
            }
            let combo = read_bindings(&slice_of(line, open + 1, close));
            assert(pair_views(combo@).len() == combo@.len());
            if combo.len() == 0 {
                ReadLine::Nothing
            } else {
                ReadLine::Forbidden(combo)
            }
        },
        _ => ReadLine::Nothing,
    }
}

fn read_standalone(line: &Vec<char>, bar: usize) -> (r: ReadLine)
    requires
        bar < line.len(),
    ensures
        r@ == standalone_reading(line@, bar as int),
{
    let name = trim(&head_of(line, bar));
    proof {
        name@.index_of_first_ensures('{');
    }
    if find(&name, '{').is_some() || name.len() == 0 {
        return ReadLine::Nothing;
    }
    match read_condition(&trim(&tail_of(line, bar + 1))) {
        ReadCondition::Condition(condition) => ReadLine::Condition {
            name: string_of(&name),
            condition,
        },
        ReadCondition::Malformed => ReadLine::Nothing,
    }
}

fn read_definition(def: &Vec<char>, condition: Option<Vec<char>>) -> (r: ReadLine)
    ensures
        r@ == definition_reading(
            def@,
            match condition {
                Some(c) => Some(c@),
                None => None,
            },
        ),
{
    let open = match find(def, '{') {
        Some(i) => i,
        None => return ReadLine::Nothing,
    };
    let close = match find(def, '}') {
        Some(i) => i,
        None => return ReadLine::Nothing,
    };
    let open_default = match find(def, '[') {
        Some(i) => i,
        None => return ReadLine::Nothing,
    };
    let close_default = match find(def, ']') {
        Some(i) => i,
        None => return ReadLine::Nothing,
    };
    proof {
        def@.index_of_first_ensures('{');
        def@.index_of_first_ensures('}');
        def@.index_of_first_ensures('[');
        def@.index_of_first_ensures(']');
    }
    let name = trim(&head_of(def, open));
    if name.len() == 0 {
        return ReadLine::Nothing;
    }
    if close < open || close_default < open_default {
        return ReadLine::Misordered;
    }
    let domain = read_values(&slice_of(def, open + 1, close));
    let default = string_of(&trim(&slice_of(def, open_default + 1, close_default)));
    if !contains_text(&domain, default.as_str()) {
        return ReadLine::DefaultNotInDomain { default, domain, name: string_of(&name) };
    }
    match condition {
        None => ReadLine::Param(
            Param { name: string_of(&name), domain, default, condition: None },
        ),
        Some(text) => match read_condition(&text) {
            ReadCondition::Condition(c) => ReadLine::Param(
                Param { name: string_of(&name), domain, default, condition: Some(c) },
            ),
            ReadCondition::Malformed => ReadLine::MalformedCondition(string_of(&text)),
        },
    }
}

fn read_line(raw: &Vec<char>) -> (r: ReadLine)
    ensures
        r@ == line_reading(raw@),
{
    let line = trim(&strip_comment(raw));
    proof {
        line@.index_of_first_ensures('{');
        line@.index_of_first_ensures('[');
        line@.index_of_first_ensures('|');
    }
    if find(&line, '{').is_none() {
        return ReadLine::Nothing;
    }
    match (find(&line, '[').is_some(), find(&line, '|')) {
        (false, None) => read_forbidden(&line),
        (false, Some(bar)) => read_standalone(&line, bar),
        (true, None) => read_definition(&line, None),
        (true, Some(bar)) => {
            let condition = trim(&tail_of(&line, bar + 1));
            read_definition(&trim(&head_of(&line, bar)), Some(condition))
        },
    }
}

fn find_named(params: &Vec<Param>, name: &str) -> (r: Option<usize>)
    ensures
        match r {
            Some(i) => first_named(params@.map_values(|p: Param| p@), name@) == Some(i as int) && i
                < params.len(),
            None => first_named(params@.map_values(|p: Param| p@), name@) is None,
        },
{
    let ghost names = params@.map_values(|p: Param| p@).map_values(|p: ParamView| p.name);
    proof {
        names.index_of_first_ensures(name@);
    }
    for i in 0..params.len()
        invariant
            names == params@.map_values(|p: Param| p@).map_values(|p: ParamView| p.name),
            forall|j: int| 0 <= j < i ==> names[j] != name@,
    {
        assert(names[i as int] == params@[i as int].name@);
        if same_text(params[i].name.as_str(), name) {
            proof {
                names.index_of_first_ensures(name@);
            }
            return Some(i);
        }
    }
    None
}

fn read_text(text: &str) -> (r: ReadText)
    ensures
        r@ == reading(text@),
{
    let lines = split_lines(&chars_of(text));
    let mut space = ParamSpace { params: Vec::new(), forbidden: Vec::new() };
    let ghost ls = lines_of(text@);
    proof {
        assert(space@.params =~= Seq::empty());
        assert(space@.forbidden =~= Seq::empty());
    }
    for i in 0..lines.len()
        invariant
            ls == lines_of(text@),
            rows(lines@) == ls,
            reading_of_lines(ls, i as nat) == Reading::Space(space@),
    {
        let ghost before = space@;
        let ghost number = (i + 1) as nat;
        proof {
            assert(rows(lines@)[i as int] == lines@[i as int]@);
            assert(reading_of_lines(ls, number) == with_line(before, line_reading(ls[i as int]), number));
        }
        match read_line(&lines[i]) {
            ReadLine::Nothing => {},
            ReadLine::Forbidden(combo) => {
                let ghost c = pair_views(combo@);
                space.forbidden.push(combo);
                proof {
                    assert(space@.forbidden =~= before.forbidden.push(c));
                }
            },
            ReadLine::Condition { name, condition } => {
                match find_named(&space.params, name.as_str()) {
                    Some(k) => {
                        let ghost cv = condition@;
                        let old_param = space.params.remove(k);
                        space.params.insert(
                            k,
                            Param {
                                name: old_param.name,
                                domain: old_param.domain,
                                default: old_param.default,
                                condition: Some(condition),
                            },
                        );
                        proof {
                            assert(space@.params =~= before.params.update(
                                k as int,
                                ParamView { condition: Some(cv), ..before.params[k as int] },
                            ));
                        }
                    },
                    None => {},
                }
            },
            ReadLine::Param(p) => {
                let ghost v = p@;
                space.params.push(p);
                proof {
                    assert(space@.params =~= before.params.push(v));
                }
            },
            ReadLine::DefaultNotInDomain { default, domain, name } => {
                proof {
                    lemma_first_wrong_line_is_reported(ls, number, ls.len());
                }
                return ReadText::Error(
                    ParamError::DefaultNotInDomain { line: i + 1, default, domain, name },
                );
            },
            ReadLine::MalformedCondition(condition) => {
                proof {
                    lemma_first_wrong_line_is_reported(ls, number, ls.len());
                }
                return ReadText::Error(ParamError::MalformedCondition { line: i + 1, condition });
            },
            ReadLine::Misordered => {
                proof {
                    lemma_first_wrong_line_is_reported(ls, number, ls.len());
                }
                return ReadText::Misordered(i + 1);
            },
        }
    }
    assert(rows(lines@).len() == lines@.len());
    ReadText::Space(space)
}

/// Whether an outcome is what a text says.
pub open spec fn says(text: Seq<char>, r: Result<ParamSpace, ParamError>) -> bool {
    match r {
        Ok(s) => reading(text) == Reading::Space(s@) && sound_space(s@) && s.inhabited(),
        Err(e) => reading(text) == e.reading(),
    }
}

impl ParamSpace {
    /// The parameter space that a text writes; nothing if in a domain, a default
    /// or a combination that is read the closing delimiter stands before the
    /// opening one.
    pub fn checked_from_text(text: &str) -> (r: Option<Result<ParamSpace, ParamError>>)
        ensures
            match r {
                Some(outcome) => says(text@, outcome),
                None => reading(text@) is Misordered,
            },
    {
        proof {
            lemma_reading_is_sound(lines_of(text@), lines_of(text@).len());
        }
        match read_text(text) {
            ReadText::Space(s) => {
                proof {
                    assert forall|i: int| 0 <= i < s.params@.len() implies (#[trigger] s.params@[i]).domain@.len()
                        > 0 by {
                        assert(s@.params[i].domain.len() > 0);
                    }
                }
                Some(Ok(s))
            },
            ReadText::Error(e) => Some(Err(e)),
            ReadText::Misordered(_) => None,
        }
    }

    /// The parameter space that a text writes, where in no domain, default or
    /// combination that is read the closing delimiter stands before the opening
    /// one.
    pub fn from_text(text: &str) -> (r: Result<ParamSpace, ParamError>)
        requires
            !(reading(text@) is Misordered),
        ensures
            says(text@, r),
    {
        match ParamSpace::checked_from_text(text) {
            Some(r) => r,
            None => Ok(ParamSpace { params: Vec::new(), forbidden: Vec::new() }),
        }
    }
}

} // verus!
