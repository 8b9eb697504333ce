use vstd::prelude::*;

use crate::input_graph::is_normal_form_of;
use crate::input_graph::Edge;
use crate::input_graph::InputGraph;

verus! {

/// Blank, tab, line feed, vertical tab, form feed or carriage return.
pub open spec fn is_space(b: u8) -> bool {
    b == 32 || (9 <= b && b <= 13)
}

pub open spec fn is_digit(b: u8) -> bool {
    48 <= b && b <= 57
}

/// The number that the digits stand for.
pub open spec fn digits_value(digits: Seq<u8>) -> nat
    decreases digits.len(),
{
    if digits.len() == 0 {
        0
    } else {
        digits_value(digits.drop_last()) * 10 + (digits.last() - 48) as nat
    }
}

pub open spec fn all_digits(digits: Seq<u8>) -> bool {
    forall|i: int| 0 <= i < digits.len() ==> is_digit(#[trigger] digits[i])
}

/// The number that digits stand for, where there are any and the machine can hold the
/// number.
pub open spec fn number_of_digits(digits: Seq<u8>) -> Option<usize> {
    if digits.len() > 0 && all_digits(digits) && digits_value(digits) <= usize::MAX {
        Some(digits_value(digits) as usize)
    } else {
        None
    }
}

/// The number that a word stands for: digits, with a plus sign before them or without,
/// that stand for a number the machine can hold.
pub open spec fn number_of(word: Seq<u8>) -> Option<usize> {
    if word.len() > 0 && word[0] == 43 {
        number_of_digits(word.skip(1))
    } else {
        number_of_digits(word)
    }
}

/// The first position from `i` on that holds no space.
pub open spec fn skip_spaces(s: Seq<u8>, i: int) -> int
    decreases s.len() - i,
{
    if 0 <= i < s.len() && is_space(s[i]) {
        skip_spaces(s, i + 1)
    } else {
        i
    }
}

/// The first position from `i` on that holds a space, or the end.
pub open spec fn skip_word(s: Seq<u8>, i: int) -> int
    decreases s.len() - i,
{
    if 0 <= i < s.len() && !is_space(s[i]) {
        skip_word(s, i + 1)
    } else {
        i
    }
}

/// The first position from `i` on that holds a line feed, or the end.
pub open spec fn line_end(s: Seq<u8>, i: int) -> int
    decreases s.len() - i,
{
    if 0 <= i < s.len() && s[i] != 10 {
        line_end(s, i + 1)
    } else {
        i
    }
}

/// The line that begins at `i`, without the line feed and without a carriage return
/// before it.
pub open spec fn line_at(s: Seq<u8>, i: int) -> Seq<u8> {
    let end = line_end(s, i);
    if i < end && s[end - 1] == 13 {
        s.subrange(i, end - 1)
    } else {
        s.subrange(i, end)
    }
}

/// The numbers that follow each other from position `i` to the end of the line, with
/// spaces between them, where there are exactly `count` of them.
pub open spec fn numbers_from(line: Seq<u8>, i: int, count: nat) -> Option<Seq<usize>>
    decreases count,
{
    let begin = skip_spaces(line, i);
    if count == 0 {
        if begin == line.len() {
            Some(Seq::empty())
        } else {
            None
        }
    } else {
        let end = skip_word(line, begin);
        match (number_of(line.subrange(begin, end)), numbers_from(line, end, (count - 1) as nat)) {
            (Some(first), Some(rest)) => Some(seq![first] + rest),
            _ => None,
        }
    }
}

/// A line ends at or after the position where it begins, and within the text.
pub proof fn lemma_line_end(s: Seq<u8>, i: int)
    requires
        0 <= i <= s.len(),
    ensures
        i <= line_end(s, i) <= s.len(),
    decreases s.len() - i,
{
    if i < s.len() && s[i] != 10 {
        lemma_line_end(s, i + 1);
    }
}

/// Where there are numbers, there are as many as asked for.
pub proof fn lemma_numbers_len(line: Seq<u8>, i: int, count: nat)
    ensures
        numbers_from(line, i, count) matches Some(numbers) ==> numbers.len() == count,
    decreases count,
{
    if count > 0 {
        let begin = skip_spaces(line, i);
        let end = skip_word(line, begin);
        lemma_numbers_len(line, end, (count - 1) as nat);
    }
}

/// Whether the line begins with the given bytes.
pub open spec fn starts_with(line: Seq<u8>, prefix: Seq<u8>) -> bool {
    line.len() >= prefix.len() && line.subrange(0, prefix.len() as int) == prefix
}

/// The bytes of `a `.
pub open spec fn arc_mark() -> Seq<u8> {
    seq![97u8, 32u8]
}

/// The bytes of `p sp `.
pub open spec fn problem_mark() -> Seq<u8> {
    seq![112u8, 32u8, 115u8, 112u8, 32u8]
}

/// The three numbers of an arc line: start node, end node and weight.
pub open spec fn arc_of(line: Seq<u8>) -> Option<(usize, usize, usize)> {
    match numbers_from(line, 2, 3) {
        Some(numbers) => Some((numbers[0], numbers[1], numbers[2])),
        None => None,
    }
}

/// The edges that the arcs add to an input graph: an arc from a node to itself or
/// without weight adds none.
pub open spec fn edges_of_arcs(arcs: Seq<(usize, usize, usize)>) -> Seq<Edge>
    decreases arcs.len(),
{
    if arcs.len() == 0 {
        Seq::empty()
    } else {
        let rest = edges_of_arcs(arcs.drop_last());
        let arc = arcs.last();
        if arc.0 == arc.1 || arc.2 == 0 {
            rest
        } else {
            rest.push(Edge { from: arc.0, to: arc.1, weight: arc.2 })
        }
    }
}

/// No node of the arcs is too large for a graph.
pub open spec fn arcs_in_reach(arcs: Seq<(usize, usize, usize)>) -> bool {
    forall|i: int|
        0 <= i < arcs.len() ==> (#[trigger] arcs[i]).0 < usize::MAX - 1 && arcs[i].1 < usize::MAX
            - 1
}

/// The arcs of a text in which every line that begins with `a ` is an arc line, and
/// all other lines count for nothing. There are none where an arc line is not made of
/// three numbers.
pub open spec fn arcs_of_text(text: Seq<u8>, i: int) -> Option<Seq<(usize, usize, usize)>>
    decreases text.len() + 1 - i,
{
    if i < 0 || i >= text.len() {
        Some(Seq::empty())
    } else {
        let line = line_at(text, i);
        let next = line_end(text, i) + 1;
        let rest = if i < next <= text.len() + 1 {
            arcs_of_text(text, next)
        } else {
            Some(Seq::empty())
        };
        if starts_with(line, arc_mark()) {
            match (arc_of(line), rest) {
                (Some(arc), Some(others)) => Some(seq![arc] + others),
                _ => None,
            }
        } else {
            rest
        }
    }
}

/// The digits of a number, beginning with the one that counts most.
pub open spec fn digits_of(number: nat) -> Seq<u8>
    decreases number,
{
    if number < 10 {
        seq![(48 + number) as u8]
    } else {
        digits_of(number / 10).push((48 + number % 10) as u8)
    }
}

/// The line that stands for an edge in a text, with the nodes counted from `base`.
pub open spec fn edge_line(edge: Edge, base: nat) -> Seq<u8> {
    arc_mark() + digits_of((edge.from + base) as nat) + seq![32u8] + digits_of(
        (edge.to + base) as nat,
    ) + seq![32u8] + digits_of(edge.weight as nat) + seq![10u8]
}

/// The lines that stand for the edges.
pub open spec fn edge_lines(edges: Seq<Edge>, base: nat) -> Seq<u8>
    decreases edges.len(),
{
    if edges.len() == 0 {
        Seq::empty()
    } else {
        edge_lines(edges.drop_last(), base) + edge_line(edges.last(), base)
    }
}

/// The digits of a number stand for that number.
pub proof fn lemma_digits(number: nat)
    ensures
        digits_of(number).len() > 0,
        all_digits(digits_of(number)),
        digits_value(digits_of(number)) == number,
    decreases number,
{
    if number < 10 {
        let d = digits_of(number);
        assert(d.drop_last() =~= Seq::<u8>::empty());
        assert(digits_value(d.drop_last()) == 0);
    } else {
        lemma_digits(number / 10);
        let d = digits_of(number);
        assert(d.drop_last() =~= digits_of(number / 10));
        assert forall|i: int| 0 <= i < d.len() implies is_digit(#[trigger] d[i]) by {
            if i < d.len() - 1 {
                assert(d[i] == digits_of(number / 10)[i]);
            }
        }
    }
}

/// More digits stand for a number that is not smaller.
proof fn lemma_digits_grow(digits: Seq<u8>, k: int)
    requires
        0 <= k <= digits.len(),
        all_digits(digits),
    ensures
        digits_value(digits.take(k)) <= digits_value(digits),
    decreases digits.len() - k,
{
    if k < digits.len() {
        lemma_digits_grow(digits, k + 1);
        assert(digits.take(k + 1).drop_last() =~= digits.take(k));
        assert(is_digit(digits[k]));
    } else {
        assert(digits.take(k) =~= digits);
    }
}

/// Reads the number that the bytes from `begin` up to `end` stand for.
pub fn parse_number(s: &[u8], begin: usize, end: usize) -> (number: Option<usize>)
    requires
        begin <= end <= s@.len(),
    ensures
        number == number_of(s@.subrange(begin as int, end as int)),
{
    let ghost word = s@.subrange(begin as int, end as int);
    let mut i = begin;
    if i < end && s[i] == 43 {
        i += 1;
    }
    let first = i;
    let ghost digits = s@.subrange(first as int, end as int);
    proof {
        if begin < end && s@[begin as int] == 43 {
            assert(word[0] == 43);
            assert(digits =~= word.skip(1));
        } else {
            if word.len() > 0 {
                assert(word[0] == s@[begin as int]);
            }
            assert(digits =~= word);
        }
    }
    assert(number_of(word) == number_of_digits(digits));
    if i == end {
        assert(digits.len() == 0);
        return None;
    }
    let mut value: usize = 0;
    while i < end
        invariant
            begin <= first <= i <= end,
            first < end,
            end <= s@.len(),
            digits == s@.subrange(first as int, end as int),
            number_of(s@.subrange(begin as int, end as int)) == number_of_digits(digits),
            all_digits(digits.take(i - first)),
            value == digits_value(digits.take(i - first)),
        decreases end - i,
    {
        let b = s[i];
        if b < 48 || b > 57 {
            proof {
                assert(!is_digit(digits[i - first]));
            }
            return None;
        }
        let digit: usize = (b - 48) as usize;
        proof {
            assert(digits.take(i - first + 1).drop_last() =~= digits.take(i - first));
            assert(digits.take(i - first + 1).last() == b);
            assert forall|k: int| 0 <= k < digits.take(i - first + 1).len() implies is_digit(
                #[trigger] digits.take(i - first + 1)[k],
            ) by {
                if k < i - first {
                    assert(digits.take(i - first)[k] == digits[k]);
                }
            }
        }
        if value > (usize::MAX - digit) / 10 {
            proof {
                // the digits so far already stand for more than the machine can hold
                let so_far = digits.take(i - first + 1);
                assert(so_far.len() > 0);
                assert((so_far.last() - 48) as nat == digit);
                assert(digits_value(so_far) == digits_value(so_far.drop_last()) * 10 + (
                so_far.last() - 48) as nat);
                assert(digits_value(so_far) == value * 10 + digit);
                assert(value * 10 + digit > usize::MAX) by (nonlinear_arith)
                    requires
                        value > (usize::MAX - digit) / 10,
                        0 <= digit <= 9,
                ;
                if all_digits(digits) {
                    lemma_digits_grow(digits, i - first + 1);
                }
            }
            return None;
        }
        assert(value * 10 + digit <= usize::MAX) by (nonlinear_arith)
            requires
                value <= (usize::MAX - digit) / 10,
                0 <= digit <= 9,
        ;
        proof {
            let so_far = digits.take(i - first + 1);
            assert((so_far.last() - 48) as nat == digit);
            assert(digits_value(so_far) == digits_value(so_far.drop_last()) * 10 + (so_far.last()
                - 48) as nat);
        }
        value = value * 10 + digit;
        i += 1;
    }
    proof {
        assert(digits.take(end - first) =~= digits);
    }
    Some(value)
}

fn byte_is_space(b: u8) -> (space: bool)
    ensures
        space == is_space(b),
{
    b == 32 || (9 <= b && b <= 13)
}

/// Reads `count` numbers that follow each other from position `i` to the end of the
/// line. Returns nothing where the line holds anything else.
pub fn parse_numbers(line: &[u8], i: usize, count: usize) -> (numbers: Option<Vec<usize>>)
    requires
        i <= line@.len(),
    ensures
        numbers is None <==> numbers_from(line@, i as int, count as nat) is None,
        numbers matches Some(found) ==> Some(found@) == numbers_from(line@, i as int, count as nat),
{
    let mut found: Vec<usize> = Vec::new();
    let mut pos = i;
    let mut left = count;
    loop
        invariant_except_break
            pos <= line@.len(),
            match numbers_from(line@, pos as int, left as nat) {
                Some(rest) => numbers_from(line@, i as int, count as nat) == Some(found@ + rest),
                None => numbers_from(line@, i as int, count as nat) is None,
            },
        ensures
            pos <= line@.len(),
            left == 0,
            skip_spaces(line@, pos as int) == line@.len(),
            numbers_from(line@, i as int, count as nat) == Some(found@),
        decreases left,
    {
        let begin = skip_spaces_from(line, pos);
        if left == 0 {
            if begin == line.len() {
                proof {
                    assert(found@ + Seq::<usize>::empty() =~= found@);
                    lemma_skip_twice(line@, pos as int);
                }
                pos = begin;
                break;
            } else {
                return None;
            }
        }
        let end = skip_word_from(line, begin);
        let ghost before = found@;
        match parse_number(line, begin, end) {
            Some(number) => {
                found.push(number);
                proof {
                    match numbers_from(line@, end as int, (left - 1) as nat) {
                        Some(rest) => {
                            assert((before.push(number) + rest) =~= (before + (seq![number]
                                + rest)));
                        },
                        None => {},
                    }
                }
            },
            None => {
                return None;
            },
        }
        pos = end;
        left -= 1;
    }
    Some(found)
}

/// Skipping spaces where they were skipped already goes nowhere.
proof fn lemma_skip_twice(s: Seq<u8>, i: int)
    ensures
        skip_spaces(s, skip_spaces(s, i)) == skip_spaces(s, i),
    decreases s.len() - i,
{
    if 0 <= i < s.len() && is_space(s[i]) {
        lemma_skip_twice(s, i + 1);
    }
}

fn skip_spaces_from(s: &[u8], i: usize) -> (j: usize)
    requires
        i <= s@.len(),
    ensures
        j == skip_spaces(s@, i as int),
        i <= j <= s@.len(),
{
    let mut j = i;
    while j < s.len() && byte_is_space(s[j])
        invariant
            i <= j <= s@.len(),
            skip_spaces(s@, j as int) == skip_spaces(s@, i as int),
        decreases s@.len() - j,
    {
        j += 1;
    }
    j
}

fn skip_word_from(s: &[u8], i: usize) -> (j: usize)
    requires
        i <= s@.len(),
    ensures
        j == skip_word(s@, i as int),
        i <= j <= s@.len(),
{
    let mut j = i;
    while j < s.len() && !byte_is_space(s[j])
        invariant
            i <= j <= s@.len(),
            skip_word(s@, j as int) == skip_word(s@, i as int),
        decreases s@.len() - j,
    {
        j += 1;
    }
    j
}

fn line_end_from(s: &[u8], i: usize) -> (j: usize)
    requires
        i <= s@.len(),
    ensures
        j == line_end(s@, i as int),
        i <= j <= s@.len(),
{
    let mut j = i;
    while j < s.len() && s[j] != 10
        invariant
            i <= j <= s@.len(),
            line_end(s@, j as int) == line_end(s@, i as int),
        decreases s@.len() - j,
    {
        j += 1;
    }
    j
}

/// The line that begins at `i`, and the position where the next line begins.
fn take_line(text: &[u8], i: usize) -> (found: (Vec<u8>, usize))
    requires
        i < text@.len(),
        text@.len() < usize::MAX,
    ensures
        found.0@ == line_at(text@, i as int),
        found.1 == line_end(text@, i as int) + 1,
        i < found.1 <= text@.len() + 1,
{
    let end = line_end_from(text, i);
    let stop = if i < end && text[end - 1] == 13 {
        end - 1
    } else {
        end
    };
    let mut line: Vec<u8> = Vec::new();
    let mut k = i;
    while k < stop
        invariant
            i <= k <= stop,
            stop <= text@.len(),
            line@ == text@.subrange(i as int, k as int),
        decreases stop - k,
    {
        line.push(text[k]);
        proof {
            assert(line@ =~= text@.subrange(i as int, k + 1));
        }
        k += 1;
    }
    (line, end + 1)
}

fn line_starts_with(line: &[u8], prefix: &[u8]) -> (result: bool)
    ensures
        result == starts_with(line@, prefix@),
{
    if line.len() < prefix.len() {
        return false;
    }
    let mut k: usize = 0;
    while k < prefix.len()
        invariant
            k <= prefix@.len(),
            prefix@.len() <= line@.len(),
            forall|j: int| 0 <= j < k ==> line@[j] == prefix@[j],
        decreases prefix@.len() - k,
    {
        if line[k] != prefix[k] {
            proof {
                assert(line@.subrange(0, prefix@.len() as int)[k as int] != prefix@[k as int]);
            }
            return false;
        }
        k += 1;
    }
    proof {
        assert(line@.subrange(0, prefix@.len() as int) =~= prefix@);
    }
    true
}

impl InputGraph {
    /// Reads the three numbers of an arc line, which begins with `a `: start node, end
    /// node and weight. Returns nothing where the line holds anything else.
    pub fn read_arc_line(line: &[u8]) -> (arc: Option<(usize, usize, usize)>)
        requires
            line@.len() >= 2,
        ensures
            arc == arc_of(line@),
    {
        proof {
            lemma_numbers_len(line@, 2, 3);
        }
        match parse_numbers(line, 2, 3) {
            Some(numbers) => Some((numbers[0], numbers[1], numbers[2])),
            None => None,
        }
    }

    /// The graph with the edges of a text that holds one edge per line, in the form
    /// `a <from> <to> <weight>`. All other lines count for nothing. Returns nothing
    /// where a line that begins with `a ` is not of that form, or names a node that is
    /// too large.
    pub fn from_text(text: &[u8]) -> (graph: Option<InputGraph>)
        requires
            text@.len() < usize::MAX,
        ensures
            graph is Some <==> arcs_of_text(text@, 0) is Some && arcs_in_reach(
                arcs_of_text(text@, 0).unwrap(),
            ),
            graph matches Some(g) ==> g.wf() && g.is_frozen() && is_normal_form_of(
                g.spec_edges(),
                edges_of_arcs(arcs_of_text(text@, 0).unwrap()),
            ),
    {
        let mut g = InputGraph::new();
        let mark: [u8; 2] = [97, 32];
        let ghost mut arcs: Seq<(usize, usize, usize)> = Seq::empty();
        let mut i: usize = 0;
        while i < text.len()
            invariant
                text@.len() < usize::MAX,
                g.wf(),
                !g.is_frozen(),
                mark@ == arc_mark(),
                g.spec_edges() == edges_of_arcs(arcs),
                arcs_in_reach(arcs),
                match arcs_of_text(text@, i as int) {
                    Some(rest) => arcs_of_text(text@, 0) == Some(arcs + rest),
                    None => arcs_of_text(text@, 0) is None,
                },
            decreases text@.len() + 1 - i,
        {
            let (line, next) = take_line(text, i);
            assert(i < next);
            if line_starts_with(line.as_slice(), mark.as_slice()) {
                match InputGraph::read_arc_line(line.as_slice()) {
                    Some((from, to, weight)) => {
                        proof {
                            match arcs_of_text(text@, next as int) {
                                Some(rest) => {
                                    assert((arcs.push((from, to, weight)) + rest) =~= (arcs + (
                                    seq![(from, to, weight)] + rest)));
                                },
                                None => {},
                            }
                            assert(arcs.push((from, to, weight)).drop_last() =~= arcs);
                        }
                        if from >= usize::MAX - 1 || to >= usize::MAX - 1 {
                            proof {
                                lemma_out_of_reach(text@, i as int, arcs, (from, to, weight));
                            }
                            return None;
                        }
                        g.add_edge(from, to, weight);
                        proof {
                            arcs = arcs.push((from, to, weight));
                        }
                    },
                    None => {
                        return None;
                    },
                }
            }
            i = next;
        }
        proof {
            assert(arcs + Seq::<(usize, usize, usize)>::empty() =~= arcs);
        }
        g.freeze();
        Some(g)
    }

    /// The text that holds the edges of the graph, one per line, in the form
    /// `a <from> <to> <weight>`.
    pub fn to_text(&self) -> (text: Vec<u8>)
        requires
            self.is_frozen(),
        ensures
            text@ == edge_lines(self.spec_edges(), 0),
    {
        let edges = self.get_edges();
        let mut text: Vec<u8> = Vec::new();
        let mut i: usize = 0;
        while i < edges.len()
            invariant
                i <= edges@.len(),
                text@ == edge_lines(edges@.take(i as int), 0),
            decreases edges@.len() - i,
        {
            let edge = edges[i];
            proof {
                assert(edges@.take(i + 1).drop_last() =~= edges@.take(i as int));
            }
            write_edge_line(&mut text, edge, 0);
            i += 1;
        }
        proof {
            assert(edges@.take(i as int) =~= edges@);
        }
        text
    }
}

/// Where the arcs before an arc that is out of reach are followed by that arc, the
/// arcs of the whole text are out of reach.
proof fn lemma_out_of_reach(
    text: Seq<u8>,
    i: int,
    arcs: Seq<(usize, usize, usize)>,
    arc: (usize, usize, usize),
)
    requires
        arc.0 >= usize::MAX - 1 || arc.1 >= usize::MAX - 1,
        match arcs_of_text(text, line_end(text, i) + 1) {
            Some(rest) => arcs_of_text(text, 0) == Some(arcs + (seq![arc] + rest)),
            None => arcs_of_text(text, 0) is None,
        },
    ensures
        !(arcs_of_text(text, 0) is Some && arcs_in_reach(arcs_of_text(text, 0).unwrap())),
{
    match arcs_of_text(text, line_end(text, i) + 1) {
        Some(rest) => {
            let all = arcs + (seq![arc] + rest);
            assert(all[arcs.len() as int] == arc);
        },
        None => {},
    }
}

/// Appends the digits of a number.
pub fn write_number(text: &mut Vec<u8>, number: usize)
    ensures
        final(text)@ == old(text)@ + digits_of(number as nat),
    decreases number,
{
    if number < 10 {
        text.push(48 + number as u8);
        proof {
            assert(text@ =~= old(text)@ + digits_of(number as nat));
        }
    } else {
        write_number(text, number / 10);
        text.push(48 + (number % 10) as u8);
        proof {
            assert(text@ =~= old(text)@ + digits_of(number as nat));
        }
    }
}

/// Appends the line that stands for an edge, with the nodes counted from `base`.
fn write_edge_line(text: &mut Vec<u8>, edge: Edge, base: usize)
    requires
        edge.from + base <= usize::MAX,
        edge.to + base <= usize::MAX,
    ensures
        final(text)@ == old(text)@ + edge_line(edge, base as nat),
{
    text.push(97);
    text.push(32);
    write_number(text, edge.from + base);
    text.push(32);
    write_number(text, edge.to + base);
    text.push(32);
    write_number(text, edge.weight);
    text.push(10);
    proof {
        assert(text@ =~= old(text)@ + edge_line(edge, base as nat));
    }
}

/// What can be wrong with a text in the format of DIMACS.
#[derive(Debug, Clone, Copy, PartialEq, Eq, Structural)]
pub enum DimacsError {
    /// There is more than one problem line.
    SecondProblemLine,
    /// A problem line does not hold two numbers and nothing else.
    InvalidProblemLine,
    /// An arc line comes before the problem line.
    MissingProblemLine,
    /// An arc line does not hold three numbers and nothing else.
    InvalidArcLine,
    /// An arc line names a node that is zero or larger than the number of nodes.
    InvalidNodes,
    /// There are more arc lines than the problem line says.
    TooManyArcLines,
    /// There are fewer arc lines than the problem line says.
    NotEnoughArcLines,
    /// A line is not empty and begins with none of `c`, `p sp ` and `a `.
    InvalidLine,
}

/// What was read of a text in the format of DIMACS: the numbers of nodes and of arcs
/// that the problem line gives, whether there was a problem line, and the arcs so
/// far, with their nodes counted from zero.
pub struct DimacsState {
    pub nodes: usize,
    pub edges: usize,
    pub found_problem_line: bool,
    pub arcs: Seq<(usize, usize, usize)>,
}

/// The state after the given line was read.
pub open spec fn dimacs_line(state: DimacsState, line: Seq<u8>) -> Result<DimacsState, DimacsError> {
    if line.len() == 0 || line[0] == 99 {
        Ok(state)
    } else if starts_with(line, problem_mark()) {
        if state.found_problem_line {
            Err(DimacsError::SecondProblemLine)
        } else {
            match numbers_from(line, 5, 2) {
                Some(numbers) => Ok(
                    DimacsState {
                        nodes: numbers[0],
                        edges: numbers[1],
                        found_problem_line: true,
                        ..state
                    },
                ),
                None => Err(DimacsError::InvalidProblemLine),
            }
        }
    } else if starts_with(line, arc_mark()) {
        if !state.found_problem_line {
            Err(DimacsError::MissingProblemLine)
        } else {
            match arc_of(line) {
                None => Err(DimacsError::InvalidArcLine),
                Some(arc) => if arc.0 > state.nodes || arc.1 > state.nodes || arc.0 >= usize::MAX
                    || arc.1 >= usize::MAX {
                    Err(DimacsError::InvalidNodes)
                } else if state.arcs.len() >= state.edges {
                    Err(DimacsError::TooManyArcLines)
                } else if arc.0 == 0 || arc.1 == 0 {
                    Err(DimacsError::InvalidNodes)
                } else {
                    Ok(
                        DimacsState {
                            arcs: state.arcs.push(((arc.0 - 1) as usize, (arc.1 - 1) as usize, arc.2)),
                            ..state
                        },
                    )
                },
            }
        }
    } else {
        Err(DimacsError::InvalidLine)
    }
}

/// The state after the lines from position `i` on were read.
pub open spec fn dimacs_from(text: Seq<u8>, i: int, state: DimacsState) -> Result<
    DimacsState,
    DimacsError,
>
    decreases text.len() + 1 - i,
{
    if i < 0 || i >= text.len() {
        Ok(state)
    } else {
        let next = line_end(text, i) + 1;
        match dimacs_line(state, line_at(text, i)) {
            Ok(after) => if i < next <= text.len() + 1 {
                dimacs_from(text, next, after)
            } else {
                Ok(after)
            },
            Err(error) => Err(error),
        }
    }
}

/// The arcs of a text in the format of DIMACS, with their nodes counted from zero, or
/// what is wrong with the text.
pub open spec fn dimacs_arcs(text: Seq<u8>) -> Result<Seq<(usize, usize, usize)>, DimacsError> {
    match dimacs_from(
        text,
        0,
        DimacsState { nodes: 0, edges: 0, found_problem_line: false, arcs: Seq::empty() },
    ) {
        Ok(state) => if state.arcs.len() == state.edges {
            Ok(state.arcs)
        } else {
            Err(DimacsError::NotEnoughArcLines)
        },
        Err(error) => Err(error),
    }
}

/// The problem line for a graph of the given numbers of nodes and edges.
pub open spec fn problem_line(num_nodes: usize, num_edges: usize) -> Seq<u8> {
    problem_mark() + digits_of(num_nodes as nat) + seq![32u8] + digits_of(num_edges as nat)
        + seq![10u8]
}

/// The bytes of `g.add_edge(`.
pub open spec fn call_mark() -> Seq<u8> {
    seq![103u8, 46u8, 97u8, 100u8, 100u8, 95u8, 101u8, 100u8, 103u8, 101u8, 40u8]
}

/// The call that adds an edge to a graph named `g`, as source text.
pub open spec fn edge_call(edge: Edge) -> Seq<u8> {
    call_mark() + digits_of(edge.from as nat) + seq![44u8, 32u8] + digits_of(edge.to as nat)
        + seq![44u8, 32u8] + digits_of(edge.weight as nat) + seq![41u8, 59u8]
}

/// The calls that add the edges to a graph named `g`, one per line.
pub open spec fn edge_calls(edges: Seq<Edge>) -> Seq<u8>
    decreases edges.len(),
{
    if edges.len() == 0 {
        Seq::empty()
    } else {
        edge_calls(edges.drop_last()) + edge_call(edges.last()) + seq![10u8]
    }
}

/// The characters that the bytes stand for, each byte for one.
pub open spec fn chars_of(bytes: Seq<u8>) -> Seq<char> {
    bytes.map_values(|b: u8| b as char)
}

/// `String::from_utf8` of the standard library. Claimed of it: bytes that are all
/// below 128 give a string with one character for each byte, the character with the
/// number of the byte.
#[verifier::external_body]
fn text_of(bytes: Vec<u8>) -> (text: String)
    requires
        forall|i: int| 0 <= i < bytes@.len() ==> #[trigger] bytes@[i] < 128,
    ensures
        text@ == chars_of(bytes@),
{
    match String::from_utf8(bytes) {
        Ok(text) => text,
        Err(_) => String::new(),
    }
}

/// Digits are below 128.
proof fn lemma_digits_plain(number: nat)
    ensures
        forall|i: int| 0 <= i < digits_of(number).len() ==> #[trigger] digits_of(number)[i] < 128,
    decreases number,
{
    if number >= 10 {
        lemma_digits_plain(number / 10);
        let d = digits_of(number);
        assert forall|i: int| 0 <= i < d.len() implies #[trigger] d[i] < 128 by {
            if i < d.len() - 1 {
                assert(d[i] == digits_of(number / 10)[i]);
            }
        }
    }
}

/// Appends the call that adds an edge to a graph named `g`.
fn write_edge_call(text: &mut Vec<u8>, edge: Edge)
    requires
        forall|i: int| 0 <= i < old(text)@.len() ==> #[trigger] old(text)@[i] < 128,
    ensures
        final(text)@ == old(text)@ + edge_call(edge),
        forall|i: int| 0 <= i < final(text)@.len() ==> #[trigger] final(text)@[i] < 128,
{
    let mark: [u8; 11] = [103, 46, 97, 100, 100, 95, 101, 100, 103, 101, 40];
    let mut k: usize = 0;
    while k < 11
        invariant
            k <= 11,
            mark@ == call_mark(),
            text@ == old(text)@ + call_mark().take(k as int),
        decreases 11 - k,
    {
        text.push(mark[k]);
        proof {
            assert(text@ =~= old(text)@ + call_mark().take(k + 1));
        }
        k += 1;
    }
    proof {
        assert(call_mark().take(11) =~= call_mark());
    }
    write_number(text, edge.from);
    text.push(44);
    text.push(32);
    write_number(text, edge.to);
    text.push(44);
    text.push(32);
    write_number(text, edge.weight);
    text.push(41);
    text.push(59);
    proof {
        assert(text@ =~= old(text)@ + edge_call(edge));
        lemma_digits_plain(edge.from as nat);
        lemma_digits_plain(edge.to as nat);
        lemma_digits_plain(edge.weight as nat);
        assert forall|i: int| 0 <= i < text@.len() implies #[trigger] text@[i] < 128 by {
            let a = old(text)@.len() as int;
            let call = edge_call(edge);
            if i >= a {
                assert(text@[i] == call[i - a]);
                let d1 = digits_of(edge.from as nat);
                let d2 = digits_of(edge.to as nat);
                let d3 = digits_of(edge.weight as nat);
                let j = i - a;
                if j < 11 {
                } else if j < 11 + d1.len() {
                    assert(call[j] == d1[j - 11]);
                } else if j < 13 + d1.len() {
                } else if j < 13 + d1.len() + d2.len() {
                    assert(call[j] == d2[j - 13 - d1.len()]);
                } else if j < 15 + d1.len() + d2.len() {
                } else if j < 15 + d1.len() + d2.len() + d3.len() {
                    assert(call[j] == d3[j - 15 - d1.len() - d2.len()]);
                } else {
                }
            } else {
                assert(text@[i] == old(text)@[i]);
            }
        }
    }
}

impl Edge {
    /// The call that adds the edge to a graph named `g`, as source text.
    pub fn unit_test_output_string(&self) -> (text: String)
        ensures
            text@ == chars_of(edge_call(*self)),
    {
        let mut bytes: Vec<u8> = Vec::new();
        write_edge_call(&mut bytes, *self);
        proof {
            assert(bytes@ =~= edge_call(*self));
        }
        text_of(bytes)
    }
}

impl InputGraph {
    /// The calls that add the edges of the graph to a graph named `g`, one per line,
    /// as source text.
    pub fn unit_test_output_string(&self) -> (text: String)
        requires
            self.is_frozen(),
        ensures
            text@ == chars_of(edge_calls(self.spec_edges())),
    {
        let edges = self.get_edges();
        let mut bytes: Vec<u8> = Vec::new();
        let mut i: usize = 0;
        while i < edges.len()
            invariant
                i <= edges@.len(),
                bytes@ == edge_calls(edges@.take(i as int)),
                forall|k: int| 0 <= k < bytes@.len() ==> #[trigger] bytes@[k] < 128,
            decreases edges@.len() - i,
        {
            let edge = edges[i];
            proof {
                assert(edges@.take(i + 1).drop_last() =~= edges@.take(i as int));
            }
            write_edge_call(&mut bytes, edge);
            bytes.push(10);
            proof {
                assert(bytes@ =~= edge_calls(edges@.take(i + 1)));
            }
            i += 1;
        }
        proof {
            assert(edges@.take(i as int) =~= edges@);
        }
        text_of(bytes)
    }

    /// The graph with the edges of a text in the format of DIMACS:
    ///
    /// * empty lines and lines that begin with `c` count for nothing;
    /// * the problem line `p sp <nodes> <edges>` gives the numbers of nodes and of
    ///   edges, and has to come before the edges;
    /// * every edge has a line `a <from> <to> <weight>`, with the nodes counted from 1.
    ///
    /// Returns what is wrong with the text where it is not in that format.
    pub fn from_dimacs_text(text: &[u8]) -> (result: Result<InputGraph, DimacsError>)
        requires
            text@.len() < usize::MAX,
        ensures
            result matches Err(error) ==> dimacs_arcs(text@) == Err::<
                Seq<(usize, usize, usize)>,
                DimacsError,
            >(error),
            result matches Ok(g) ==> dimacs_arcs(text@) is Ok && g.wf() && g.is_frozen()
                && is_normal_form_of(g.spec_edges(), edges_of_arcs(dimacs_arcs(text@).unwrap())),
    {
        let mut g = InputGraph::new();
        let arc: [u8; 2] = [97, 32];
        let problem: [u8; 5] = [112, 32, 115, 112, 32];
        let mut nodes: usize = 0;
        let mut edges: usize = 0;
        let mut curr_edges: usize = 0;
        let mut found_problem_line = false;
        let ghost mut arcs: Seq<(usize, usize, usize)> = Seq::empty();
        let ghost begun = DimacsState {
            nodes: 0,
            edges: 0,
            found_problem_line: false,
            arcs: Seq::empty(),
        };
        let mut i: usize = 0;
        while i < text.len()
            invariant
                text@.len() < usize::MAX,
                g.wf(),
                !g.is_frozen(),
                arc@ == arc_mark(),
                problem@ == problem_mark(),
                g.spec_edges() == edges_of_arcs(arcs),
                curr_edges == arcs.len(),
                curr_edges <= edges || !found_problem_line,
                !found_problem_line ==> curr_edges == 0,
                begun == (DimacsState {
                    nodes: 0,
                    edges: 0,
                    found_problem_line: false,
                    arcs: Seq::empty(),
                }),
                dimacs_from(
                    text@,
                    i as int,
                    DimacsState { nodes, edges, found_problem_line, arcs },
                ) == dimacs_from(text@, 0, begun),
            decreases text@.len() + 1 - i,
        {
            let (line, next) = take_line(text, i);
            let ghost state = DimacsState { nodes, edges, found_problem_line, arcs };
            if line.len() == 0 || line[0] == 99 {
            } else if line_starts_with(line.as_slice(), problem.as_slice()) {
                if found_problem_line {
                    return Err(DimacsError::SecondProblemLine);
                }
                proof {
                    lemma_numbers_len(line@, 5, 2);
                }
                match parse_numbers(line.as_slice(), 5, 2) {
                    Some(numbers) => {
                        nodes = numbers[0];
                        edges = numbers[1];
                        found_problem_line = true;
                    },
                    None => {
                        return Err(DimacsError::InvalidProblemLine);
                    },
                }
            } else if line_starts_with(line.as_slice(), arc.as_slice()) {
                if !found_problem_line {
                    return Err(DimacsError::MissingProblemLine);
                }
                match InputGraph::read_arc_line(line.as_slice()) {
                    None => {
                        return Err(DimacsError::InvalidArcLine);
                    },
                    Some((from, to, weight)) => {
                        if from > nodes || to > nodes || from >= usize::MAX || to >= usize::MAX {
                            return Err(DimacsError::InvalidNodes);
                        }
                        if curr_edges >= edges {
                            return Err(DimacsError::TooManyArcLines);
                        }
                        if from == 0 || to == 0 {
                            return Err(DimacsError::InvalidNodes);
                        }
                        proof {
                            assert(arcs.push(((from - 1) as usize, (to - 1) as usize, weight)).drop_last()
                                =~= arcs);
                        }
                        g.add_edge(from - 1, to - 1, weight);
                        curr_edges += 1;
                        proof {
                            arcs = arcs.push(((from - 1) as usize, (to - 1) as usize, weight));
                        }
                    },
                }
            } else {
                return Err(DimacsError::InvalidLine);
            }
            proof {
                assert(dimacs_line(state, line@) == Ok::<DimacsState, DimacsError>(
                    DimacsState { nodes, edges, found_problem_line, arcs },
                ));
            }
            i = next;
        }
        if curr_edges != edges {
            return Err(DimacsError::NotEnoughArcLines);
        }
        g.freeze();
        Ok(g)
    }

    /// The text that holds the graph in the format of DIMACS: the problem line, and
    /// one line per edge with the nodes counted from 1.
    pub fn to_dimacs_text(&self) -> (text: Vec<u8>)
        requires
            self.wf(),
            self.is_frozen(),
        ensures
            text@ == problem_line(self.spec_num_nodes(), self.spec_edges().len() as usize)
                + edge_lines(self.spec_edges(), 1),
    {
        let edges = self.get_edges();
        let mut text: Vec<u8> = Vec::new();
        text.push(112);
        text.push(32);
        text.push(115);
        text.push(112);
        text.push(32);
        write_number(&mut text, self.get_num_nodes());
        text.push(32);
        write_number(&mut text, self.get_num_edges());
        text.push(10);
        let ghost head = text@;
        proof {
            assert(head =~= problem_line(self.spec_num_nodes(), self.spec_edges().len() as usize));
        }
        let mut i: usize = 0;
        while i < edges.len()
            invariant
                i <= edges@.len(),
                self.wf(),
                edges@ == self.spec_edges(),
                text@ == head + edge_lines(edges@.take(i as int), 1),
            decreases edges@.len() - i,
        {
            let edge = edges[i];
            proof {
                assert(edges@.take(i + 1).drop_last() =~= edges@.take(i as int));
                assert(self.spec_edges()[i as int].from < self.spec_num_nodes());
                assert(self.spec_edges()[i as int].to < self.spec_num_nodes());
            }
            write_edge_line(&mut text, edge, 1);
            proof {
                assert(text@ =~= head + edge_lines(edges@.take(i + 1), 1));
            }
            i += 1;
        }
        proof {
            assert(edges@.take(i as int) =~= edges@);
        }
        text
    }
}

} // verus!
