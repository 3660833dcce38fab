//! Source positions and the standard `mappings` string that lists them.

use vstd::prelude::*;

use crate::text;
use crate::vlq;
use crate::vlq::push_vlq;

verus! {

/// One mapping: a position in the generated text, and the position in a source that it
/// comes from. Lines and columns count from zero.
#[derive(Debug, Clone, Copy)]
pub struct MapState {
    pub generated_line: i32,
    pub generated_column: i32,
    pub source_index: i32,
    pub original_line: i32,
    pub original_column: i32,
}

impl Default for MapState {
    fn default() -> (state: Self)
        ensures
            state == origin(),
    {
        MapState {
            generated_line: 0,
            generated_column: 0,
            source_index: 0,
            original_line: 0,
            original_column: 0,
        }
    }
}

/// The mapping that the first one is written relative to.
pub open spec fn origin() -> MapState {
    MapState {
        generated_line: 0,
        generated_column: 0,
        source_index: 0,
        original_line: 0,
        original_column: 0,
    }
}

/// The difference of two fields as it is written: in 32 bits.
pub open spec fn delta(value: i32, base: i32) -> i32 {
    vstd::wrapping::i32_specs::wrapping_sub(value, base)
}

/// The text of one mapping behind `previous`, with the output standing on line `line`: the
/// line breaks up to its own line, or a comma if it is not the first on the line, and then its
/// four fields relative to the previous mapping. A line break resets the column.
pub open spec fn segment(first: bool, line: int, previous: MapState, state: MapState) -> Seq<
    char,
> {
    let breaks = state.generated_line - line;
    let column: i32 = if breaks > 0 {
        0
    } else {
        previous.generated_column
    };
    separator(first, breaks) + fields(column, previous, state)
}

/// What stands in front of a mapping: the line breaks up to its line, or a comma if it is not
/// the first on the line.
pub open spec fn separator(first: bool, breaks: int) -> Seq<char> {
    if breaks > 0 {
        Seq::new(breaks as nat, |i: int| ';')
    } else if first {
        Seq::empty()
    } else {
        seq![',']
    }
}

/// The four fields of a mapping, with the column relative to `column` and the others to
/// `previous`.
pub open spec fn fields(column: i32, previous: MapState, state: MapState) -> Seq<char> {
    vlq::vlq_text(delta(state.generated_column, column)) + vlq::vlq_text(
        delta(state.source_index, previous.source_index),
    ) + vlq::vlq_text(delta(state.original_line, previous.original_line)) + vlq::vlq_text(
        delta(state.original_column, previous.original_column),
    )
}

/// Whether the next mapping does without a comma: nothing is in front of it, or a line break. A
/// zero character counts as nothing.
pub open spec fn at_line_start(text: Seq<char>) -> bool {
    text.len() == 0 || text.last() == ';' || text.last() == '\0'
}

/// The line on which the output stands behind one more mapping.
pub open spec fn next_line(line: int, state: MapState) -> int {
    if state.generated_line > line {
        state.generated_line as int
    } else {
        line
    }
}

/// The line on which the output stands behind these mappings.
pub open spec fn line_reached(states: Seq<MapState>) -> int
    decreases states.len(),
{
    if states.len() == 0 {
        0
    } else {
        next_line(line_reached(states.drop_last()), states.last())
    }
}

/// The mapping that the next one is written relative to.
pub open spec fn last_state(states: Seq<MapState>) -> MapState {
    if states.len() == 0 {
        origin()
    } else {
        states.last()
    }
}

/// The `mappings` string of a list of mappings.
pub open spec fn mappings_text(states: Seq<MapState>) -> Seq<char>
    decreases states.len(),
{
    if states.len() == 0 {
        Seq::empty()
    } else {
        let before = states.drop_last();
        mappings_text(before) + segment(
            before.len() == 0,
            line_reached(before),
            last_state(before),
            states.last(),
        )
    }
}

/// The output stands on a line that an `i32` can count, and at the start of one before the first
/// mapping only.
pub proof fn lemma_mappings_text(states: Seq<MapState>)
    ensures
        0 <= line_reached(states) <= i32::MAX,
        at_line_start(mappings_text(states)) == (states.len() == 0),
    decreases states.len(),
{
    if states.len() > 0 {
        lemma_mappings_text(states.drop_last());
        let previous = last_state(states.drop_last());
        let state = states.last();
        let word = vlq::vlq_word(delta(state.original_column, previous.original_column));
        vlq::lemma_vlq_digits_alphabet(word);
        assert(mappings_text(states).last() == vlq::vlq_digits(word).last());
        assert(vlq::base64_value(vlq::vlq_digits(word).last()) is Some);
    }
}

/// Whether the next mapping behind `text` does without a comma.
fn is_at_line_start(text: &str) -> (start: bool)
    ensures
        start == at_line_start(text@),
{
    match text::last_byte(text) {
        Some(last) => last == 0x3b || last == 0,
        None => true,
    }
}

/// Writes `state` behind the text in `out`; `previous` is the mapping written last, and
/// `generated_line` the line on which `out` stands.
pub fn emit_vlq(
    state: &MapState,
    previous: &mut MapState,
    generated_line: &mut i32,
    out: &mut String,
)
    ensures
        final(out)@ == old(out)@ + segment(
            at_line_start(old(out)@),
            *old(generated_line) as int,
            *old(previous),
            *state,
        ),
        *final(previous) == *state,
        *final(generated_line) == next_line(*old(generated_line) as int, *state),
{
    let ghost before = out@;
    let start: i32 = *generated_line;
    let first: bool = is_at_line_start(out.as_str());
    let mut column: i32 = previous.generated_column;
    while *generated_line < state.generated_line
        invariant
            start <= *generated_line,
            *generated_line <= state.generated_line || *generated_line == start,
            column == (if *generated_line > start {
                0
            } else {
                previous.generated_column
            }),
            out@ == before + Seq::new((*generated_line - start) as nat, |i: int| ';'),
        decreases state.generated_line - *generated_line,
    {
        out.push(';');
        column = 0;
        *generated_line = *generated_line + 1;
        assert(Seq::new((*generated_line - start) as nat, |i: int| ';') =~= Seq::new(
            (*generated_line - 1 - start) as nat,
            |i: int| ';',
        ).push(';'));
    }
    if *generated_line == start && !first {
        out.push(',');
    }
    let ghost separated = out@;
    assert(separated =~= before + separator(first, state.generated_line - start));
    push_vlq(out, state.generated_column.wrapping_sub(column));
    push_vlq(out, state.source_index.wrapping_sub(previous.source_index));
    push_vlq(out, state.original_line.wrapping_sub(previous.original_line));
    push_vlq(out, state.original_column.wrapping_sub(previous.original_column));
    assert(out@ =~= separated + fields(column, *previous, *state));
    assert(out@ =~= before + segment(first, start as int, *previous, *state));
    *previous = *state;
}

/// A mapping over integers.
pub struct Mapping {
    pub generated_line: int,
    pub generated_column: int,
    pub source_index: int,
    pub original_line: int,
    pub original_column: int,
}

impl View for MapState {
    type V = Mapping;

    open spec fn view(&self) -> Mapping {
        Mapping {
            generated_line: self.generated_line as int,
            generated_column: self.generated_column as int,
            source_index: self.source_index as int,
            original_line: self.original_line as int,
            original_column: self.original_column as int,
        }
    }
}

/// Reads a mapping's four fields off the front of `text`, relative to `at`: the mapping, and
/// what is left.
pub open spec fn read_fields(text: Seq<char>, at: Mapping) -> Option<(Mapping, Seq<char>)> {
    match vlq::read_vlq(text) {
        None => None,
        Some((column, text1)) => match vlq::read_vlq(text1) {
            None => None,
            Some((source, text2)) => match vlq::read_vlq(text2) {
                None => None,
                Some((line, text3)) => match vlq::read_vlq(text3) {
                    None => None,
                    Some((original, text4)) => Some(
                        (
                            Mapping {
                                generated_line: at.generated_line,
                                generated_column: at.generated_column + column,
                                source_index: at.source_index + source,
                                original_line: at.original_line + line,
                                original_column: at.original_column + original,
                            },
                            text4,
                        ),
                    ),
                },
            },
        },
    }
}

/// Reads a `mappings` string as the sourcemap format defines it: a semicolon starts the next
/// line at column zero, commas separate the mappings of a line, and the fields of a mapping
/// are relative to the mapping before it.
pub open spec fn read_mappings(text: Seq<char>, at: Mapping) -> Option<Seq<Mapping>>
    decreases text.len(),
{
    if text.len() == 0 {
        Some(Seq::empty())
    } else if text[0] == ';' {
        read_mappings(
            text.drop_first(),
            Mapping { generated_line: at.generated_line + 1, generated_column: 0, ..at },
        )
    } else if text[0] == ',' {
        read_mappings(text.drop_first(), at)
    } else {
        match read_fields(text, at) {
            None => None,
            Some((mapping, rest)) => if rest.len() < text.len() {
                match read_mappings(rest, mapping) {
                    None => None,
                    Some(mappings) => Some(seq![mapping] + mappings),
                }
            } else {
                None
            },
        }
    }
}

/// Whether a difference can be written: it fits in 32 bits and is not `i32::MIN`.
pub open spec fn writable(value: i32, base: int) -> bool {
    -i32::MAX <= value - base <= i32::MAX
}

/// Whether `state` can be written behind `previous` without loss: it is not on an earlier
/// line, and every difference can be written.
pub open spec fn follows(previous: MapState, state: MapState) -> bool {
    &&& previous.generated_line <= state.generated_line
    &&& writable(
        state.generated_column,
        if previous.generated_line < state.generated_line {
            0
        } else {
            previous.generated_column as int
        },
    )
    &&& writable(state.source_index, previous.source_index as int)
    &&& writable(state.original_line, previous.original_line as int)
    &&& writable(state.original_column, previous.original_column as int)
}

/// Whether each mapping follows the one before it, and the first one the origin.
pub open spec fn in_order(states: Seq<MapState>) -> bool {
    forall|i: int|
        0 <= i < states.len() ==> follows(
            last_state(#[trigger] states.take(i)),
            states[i],
        )
}

proof fn lemma_read_breaks(count: nat, rest: Seq<char>, at: Mapping)
    ensures
        read_mappings(Seq::new(count, |i: int| ';') + rest, at) == read_mappings(
            rest,
            if count == 0 {
                at
            } else {
                Mapping { generated_line: at.generated_line + count, generated_column: 0, ..at }
            },
        ),
    decreases count,
{
    let text = Seq::new(count, |i: int| ';') + rest;
    if count == 0 {
        assert(text =~= rest);
    } else {
        let fewer = (count - 1) as nat;
        assert(text[0] == ';');
        assert(text.drop_first() =~= Seq::new(fewer, |i: int| ';') + rest);
        lemma_read_breaks(
            fewer,
            rest,
            Mapping { generated_line: at.generated_line + 1, generated_column: 0, ..at },
        );
    }
}

/// Four numbers in VLQ text are read back as the fields of a mapping, whatever follows them.
proof fn lemma_read_four(a: i32, b: i32, c: i32, d: i32, rest: Seq<char>, at: Mapping)
    requires
        a != i32::MIN,
        b != i32::MIN,
        c != i32::MIN,
        d != i32::MIN,
    ensures
        ({
            let text = vlq::vlq_text(a) + vlq::vlq_text(b) + vlq::vlq_text(c) + vlq::vlq_text(d)
                + rest;
            &&& text.len() > rest.len()
            &&& text[0] != ';' && text[0] != ','
            &&& read_fields(text, at) == Some(
                (
                    Mapping {
                        generated_line: at.generated_line,
                        generated_column: at.generated_column + a,
                        source_index: at.source_index + b,
                        original_line: at.original_line + c,
                        original_column: at.original_column + d,
                    },
                    rest,
                ),
            )
        }),
{
    let text3 = vlq::vlq_text(d) + rest;
    let text2 = vlq::vlq_text(c) + text3;
    let text1 = vlq::vlq_text(b) + text2;
    let text = vlq::vlq_text(a) + vlq::vlq_text(b) + vlq::vlq_text(c) + vlq::vlq_text(d) + rest;
    assert(text =~= vlq::vlq_text(a) + text1);
    vlq::vlq_round_trip(a, text1);
    vlq::vlq_round_trip(b, text2);
    vlq::vlq_round_trip(c, text3);
    vlq::vlq_round_trip(d, rest);
    vlq::lemma_vlq_digits_alphabet(vlq::vlq_word(a));
    assert(text[0] == vlq::vlq_text(a)[0]);
    assert(vlq::base64_value(text[0]) is Some);
}

proof fn lemma_read_fields(column: i32, previous: MapState, state: MapState, rest: Seq<char>)
    requires
        writable(state.generated_column, column as int),
        writable(state.source_index, previous.source_index as int),
        writable(state.original_line, previous.original_line as int),
        writable(state.original_column, previous.original_column as int),
    ensures
        ({
            let at = Mapping {
                generated_line: state.generated_line as int,
                generated_column: column as int,
                ..previous@
            };
            let text = fields(column, previous, state) + rest;
            read_mappings(text, at) == match read_mappings(rest, state@) {
                None => None,
                Some(mappings) => Some(seq![state@] + mappings),
            }
        }),
{
    let at = Mapping {
        generated_line: state.generated_line as int,
        generated_column: column as int,
        ..previous@
    };
    lemma_read_four(
        delta(state.generated_column, column),
        delta(state.source_index, previous.source_index),
        delta(state.original_line, previous.original_line),
        delta(state.original_column, previous.original_column),
        rest,
        at,
    );
    assert(read_fields(fields(column, previous, state) + rest, at) == Some((state@, rest)));
}

/// Reading goes on behind a separator, on the line and column that it leads to.
proof fn lemma_read_separator(first: bool, breaks: int, tail: Seq<char>, at: Mapping)
    ensures
        read_mappings(separator(first, breaks) + tail, at) == read_mappings(
            tail,
            if breaks > 0 {
                Mapping { generated_line: at.generated_line + breaks, generated_column: 0, ..at }
            } else {
                at
            },
        ),
{
    let text = separator(first, breaks) + tail;
    if breaks > 0 {
        lemma_read_breaks(breaks as nat, tail, at);
    } else if first {
        assert(text =~= tail);
    } else {
        assert(text[0] == ',');
        assert(text.drop_first() =~= tail);
    }
}

proof fn lemma_concat(a: Seq<char>, b: Seq<char>, c: Seq<char>)
    ensures
        (a + b) + c == a + (b + c),
{
    assert((a + b) + c =~= a + (b + c));
}

#[verifier::spinoff_prover]
proof fn lemma_read_segment(previous: MapState, state: MapState, first: bool, rest: Seq<char>)
    requires
        follows(previous, state),
    ensures
        read_mappings(
            segment(first, previous.generated_line as int, previous, state) + rest,
            previous@,
        ) == match read_mappings(rest, state@) {
            None => None,
            Some(mappings) => Some(seq![state@] + mappings),
        },
{
    let breaks = state.generated_line - previous.generated_line;
    let column: i32 = if breaks > 0 {
        0
    } else {
        previous.generated_column
    };
    let own = fields(column, previous, state);
    lemma_concat(separator(first, breaks), own, rest);
    lemma_read_separator(first, breaks, own + rest, previous@);
    lemma_read_fields(column, previous, state, rest);
}

proof fn lemma_read_mappings(states: Seq<MapState>, rest: Seq<char>)
    requires
        in_order(states),
    ensures
        line_reached(states) == last_state(states).generated_line,
        read_mappings(mappings_text(states) + rest, origin()@) == match read_mappings(
            rest,
            last_state(states)@,
        ) {
            None => None,
            Some(mappings) => Some(states.map_values(|s: MapState| s@) + mappings),
        },
    decreases states.len(),
{
    if states.len() == 0 {
        assert(mappings_text(states) + rest =~= rest);
        match read_mappings(rest, origin()@) {
            None => {},
            Some(mappings) => {
                assert(states.map_values(|s: MapState| s@) + mappings =~= mappings);
            },
        }
    } else {
        let before = states.drop_last();
        let state = states.last();
        assert forall|i: int| 0 <= i < before.len() implies follows(
            last_state(#[trigger] before.take(i)),
            before[i],
        ) by {
            assert(before.take(i) =~= states.take(i));
        }
        assert(states.take(states.len() - 1) =~= before);
        assert(follows(last_state(before), state));
        let own = segment(
            before.len() == 0,
            line_reached(before),
            last_state(before),
            state,
        );
        lemma_read_mappings(before, own + rest);
        assert(mappings_text(states) + rest =~= mappings_text(before) + (own + rest));
        lemma_read_segment(last_state(before), state, before.len() == 0, rest);
        match read_mappings(rest, state@) {
            None => {},
            Some(mappings) => {
                assert(before.map_values(|s: MapState| s@) + (seq![state@] + mappings)
                    =~= states.map_values(|s: MapState| s@) + mappings);
            },
        }
    }
}

/// A reader of the standard sourcemap format gets back, from the `mappings` string, exactly
/// the mappings that were written. Left out are mappings that step back to an earlier line,
/// for which the format has no notation, and those with a difference that does not fit.
pub proof fn mappings_round_trip(states: Seq<MapState>)
    requires
        in_order(states),
    ensures
        read_mappings(mappings_text(states), origin()@) == Some(
            states.map_values(|s: MapState| s@),
        ),
{
    lemma_read_mappings(states, Seq::empty());
    assert(mappings_text(states) + Seq::<char>::empty() =~= mappings_text(states));
    assert(states.map_values(|s: MapState| s@) + Seq::<Mapping>::empty() =~= states.map_values(
        |s: MapState| s@,
    ));
}

/// A `mappings` string has Base64 characters, commas and semicolons only.
pub proof fn mappings_alphabet(states: Seq<MapState>)
    ensures
        forall|i: int|
            0 <= i < mappings_text(states).len() ==> {
                let ch = #[trigger] mappings_text(states)[i];
                vlq::base64_value(ch) is Some || ch == ',' || ch == ';'
            },
    decreases states.len(),
{
    if states.len() > 0 {
        let before = states.drop_last();
        let previous = last_state(before);
        let state = states.last();
        mappings_alphabet(before);
        let column: i32 = if state.generated_line > line_reached(before) {
            0
        } else {
            previous.generated_column
        };
        vlq::lemma_vlq_digits_alphabet(vlq::vlq_word(delta(state.generated_column, column)));
        vlq::lemma_vlq_digits_alphabet(
            vlq::vlq_word(delta(state.source_index, previous.source_index)),
        );
        vlq::lemma_vlq_digits_alphabet(
            vlq::vlq_word(delta(state.original_line, previous.original_line)),
        );
        vlq::lemma_vlq_digits_alphabet(
            vlq::vlq_word(delta(state.original_column, previous.original_column)),
        );
    }
}

/// How many line breaks a text has.
pub open spec fn line_breaks(text: Seq<char>) -> int
    decreases text.len(),
{
    if text.len() == 0 {
        0
    } else {
        line_breaks(text.drop_last()) + (if text.last() == ';' {
            1int
        } else {
            0
        })
    }
}

proof fn lemma_line_breaks(a: Seq<char>, b: Seq<char>)
    ensures
        line_breaks(a + b) == line_breaks(a) + line_breaks(b),
    decreases b.len(),
{
    if b.len() == 0 {
        assert(a + b =~= a);
    } else {
        lemma_line_breaks(a, b.drop_last());
        assert((a + b).drop_last() =~= a + b.drop_last());
    }
}

/// Whether `text` is made of Base64 digits only, at least one.
spec fn is_digits(text: Seq<char>) -> bool {
    text.len() > 0 && forall|i: int|
        0 <= i < text.len() ==> vlq::base64_value(#[trigger] text[i]) is Some
}

proof fn lemma_no_breaks(text: Seq<char>)
    requires
        forall|i: int| 0 <= i < text.len() ==> vlq::base64_value(#[trigger] text[i]) is Some,
    ensures
        line_breaks(text) == 0,
    decreases text.len(),
{
    if text.len() > 0 {
        let before = text.drop_last();
        assert forall|i: int| 0 <= i < before.len() implies vlq::base64_value(
            #[trigger] before[i],
        ) is Some by {
            assert(before[i] == text[i]);
        }
        lemma_no_breaks(before);
        assert(vlq::base64_value(text[text.len() - 1]) is Some);
    }
}

proof fn lemma_all_breaks(count: nat)
    ensures
        line_breaks(Seq::new(count, |i: int| ';')) == count,
    decreases count,
{
    if count > 0 {
        lemma_all_breaks((count - 1) as nat);
        assert(Seq::new(count, |i: int| ';').drop_last() =~= Seq::new(
            (count - 1) as nat,
            |i: int| ';',
        ));
    }
}

proof fn lemma_fields_digits(column: i32, previous: MapState, state: MapState)
    ensures
        is_digits(fields(column, previous, state)),
{
    vlq::lemma_vlq_digits_alphabet(vlq::vlq_word(delta(state.generated_column, column)));
    vlq::lemma_vlq_digits_alphabet(
        vlq::vlq_word(delta(state.source_index, previous.source_index)),
    );
    vlq::lemma_vlq_digits_alphabet(
        vlq::vlq_word(delta(state.original_line, previous.original_line)),
    );
    vlq::lemma_vlq_digits_alphabet(
        vlq::vlq_word(delta(state.original_column, previous.original_column)),
    );
}

/// Whether every comma of a text stands between two mappings of one line.
pub open spec fn commas_separate(text: Seq<char>) -> bool {
    forall|i: int|
        0 <= i < text.len() && #[trigger] text[i] == ',' ==> {
            &&& 0 < i < text.len() - 1
            &&& text[i - 1] != ',' && text[i - 1] != ';'
            &&& text[i + 1] != ',' && text[i + 1] != ';'
        }
}

/// How mappings are set apart in a `mappings` string. A comma stands between two of one line and
/// nowhere else, and the string does not end with a separator. It has as many line breaks as the
/// largest line on which one of its mappings lies, whatever their order.
pub proof fn mappings_are_set_apart(states: Seq<MapState>)
    ensures
        ({
            let text = mappings_text(states);
            &&& (text.len() == 0) == (states.len() == 0)
            &&& text.len() > 0 ==> text.last() != ',' && text.last() != ';'
            &&& commas_separate(text)
            &&& line_breaks(text) >= 0
            &&& forall|i: int|
                0 <= i < states.len() ==> line_breaks(text) >= (#[trigger] states[i]).generated_line
            &&& line_breaks(text) == 0 || exists|i: int|
                0 <= i < states.len() && line_breaks(text) == (
                #[trigger] states[i]).generated_line
            &&& line_breaks(text) == line_reached(states)
        }),
    decreases states.len(),
{
    if states.len() > 0 {
        let before = states.drop_last();
        mappings_are_set_apart(before);
        let text = mappings_text(before);
        let line = line_reached(before);
        let previous = last_state(before);
        let state = states.last();
        let breaks = state.generated_line - line;
        let column: i32 = if breaks > 0 {
            0
        } else {
            previous.generated_column
        };
        let front = separator(before.len() == 0, breaks);
        let own = fields(column, previous, state);
        let whole = mappings_text(states);
        lemma_fields_digits(column, previous, state);
        lemma_no_breaks(own);
        assert(whole =~= text + (front + own));
        lemma_line_breaks(text, front + own);
        lemma_line_breaks(front, own);
        if breaks > 0 {
            lemma_all_breaks(breaks as nat);
        } else {
            assert(line_breaks(front) == 0) by {
                reveal_with_fuel(line_breaks, 2);
            }
        }
        assert(vlq::base64_value(own[0]) is Some);
        assert(vlq::base64_value(own[own.len() - 1]) is Some);
        assert(whole.last() == own.last());
        assert forall|i: int| 0 <= i < whole.len() && #[trigger] whole[i] == ',' implies {
            &&& 0 < i < whole.len() - 1
            &&& whole[i - 1] != ',' && whole[i - 1] != ';'
            &&& whole[i + 1] != ',' && whole[i + 1] != ';'
        } by {
            if i < text.len() {
                assert(text[i] == ',');
            } else if i >= text.len() + front.len() {
                assert(vlq::base64_value(own[i - text.len() - front.len()]) is Some);
            } else {
                assert(breaks <= 0);
                assert(i == text.len());
                assert(whole[i + 1] == own[0]);
                assert(whole[i - 1] == text.last());
            }
        }
        assert(states[states.len() - 1] == state);
        assert forall|i: int| 0 <= i < states.len() implies line_breaks(whole) >= (
        #[trigger] states[i]).generated_line by {
            if i < before.len() {
                assert(before[i] == states[i]);
            }
        }
        if line_breaks(whole) != 0 && line_breaks(whole) != state.generated_line {
            let i = choose|i: int|
                0 <= i < before.len() && line_breaks(text) == (#[trigger] before[i]).generated_line;
            assert(states[i] == before[i]);
        }
    }
}

/// A `mappings` string grows with its mappings: one more mapping adds to the string and changes
/// nothing in it.
pub proof fn mappings_only_add(states: Seq<MapState>, state: MapState)
    ensures
        mappings_text(states).len() < mappings_text(states.push(state)).len(),
        mappings_text(states).is_prefix_of(mappings_text(states.push(state))),
{
    let longer = states.push(state);
    assert(longer.drop_last() =~= states);
    mappings_are_set_apart(longer);
    let text = mappings_text(longer);
    let line = line_reached(states);
    let previous = last_state(states);
    let column: i32 = if state.generated_line > line {
        0
    } else {
        previous.generated_column
    };
    lemma_fields_digits(column, previous, state);
    assert(text.subrange(0, mappings_text(states).len() as int) =~= mappings_text(states));
}

/// A mapping gets no comma in front at the very start, behind a line break or behind a zero character,
/// and gets one behind anything else.
pub proof fn starts_of_lines(text: Seq<char>, ch: char)
    ensures
        at_line_start(Seq::empty()),
        at_line_start(text.push(ch)) <==> ch == ';' || ch == '\0',
{
}

/// What stands in front of the fields of a mapping: as many line breaks as it lies below the line
/// reached, and no comma then; on the same line, or on one already passed, a comma unless nothing
/// stands in front of it. The fields themselves do not depend on that, nor on how far the line was
/// passed.
pub proof fn separators(
    first: bool,
    line: int,
    passed: int,
    previous: MapState,
    state: MapState,
)
    ensures
        ({
            let text = segment(first, line, previous, state);
            let breaks = state.generated_line - line;
            &&& breaks > 0 ==> line_breaks(text) == breaks && text == segment(
                !first,
                line,
                previous,
                state,
            ) && (forall|i: int| 0 <= i < breaks ==> text[i] == ';')
            &&& breaks <= 0 ==> line_breaks(text) == 0 && segment(false, line, previous, state)
                == seq![','] + segment(true, line, previous, state)
            &&& breaks <= 0 && passed >= state.generated_line ==> text == segment(
                first,
                passed,
                previous,
                state,
            )
            &&& forall|i: int| 0 <= i < text.len() && #[trigger] text[i] == ',' ==> i == 0
                && !first && breaks <= 0
        }),
{
    let breaks = state.generated_line - line;
    let column: i32 = if breaks > 0 {
        0
    } else {
        previous.generated_column
    };
    let own = fields(column, previous, state);
    lemma_fields_digits(column, previous, state);
    lemma_no_breaks(own);
    lemma_line_breaks(separator(first, breaks), own);
    if breaks > 0 {
        lemma_all_breaks(breaks as nat);
    } else {
        reveal_with_fuel(line_breaks, 2);
        assert(segment(true, line, previous, state) =~= own);
        assert(segment(false, line, previous, state) =~= seq![','] + own);
    }
    let text = segment(first, line, previous, state);
    let front = separator(first, breaks);
    assert forall|i: int| 0 <= i < text.len() && #[trigger] text[i] == ',' implies i == 0 && !first
        && breaks <= 0 by {
        if i >= front.len() {
            assert(vlq::base64_value(own[i - front.len()]) is Some);
        }
    }
}

/// Differences that fit in 32 bits are written as they are.
pub proof fn differences(value: i32, base: i32)
    ensures
        i32::MIN <= value - base <= i32::MAX ==> delta(value, base) == value - base,
        origin() == (MapState {
            generated_line: 0,
            generated_column: 0,
            source_index: 0,
            original_line: 0,
            original_column: 0,
        }),
{
}

} // verus!
