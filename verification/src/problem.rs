use crate::scan::{
    decimal, has_tag, lemma_run_end, line_end, match_line_end, match_tag, read_number,
    read_unsigned, run_end, scan, unsigned_word, Class,
};
use vstd::prelude::*;
use vstd::slice::{slice_subrange, slice_to_vec};
use vstd::string::StringSliceAdditionalSpecFns;

verus! {

/// The kinds of routing problem that the format can announce.
#[non_exhaustive]
#[derive(Clone, Copy, Debug, PartialEq, Eq, Structural)]
pub enum ProblemType {
    /// Capacitated vehicle routing.
    Cvrp,
}

/// The ways in which the format can measure the distance between two nodes.
#[non_exhaustive]
#[derive(Clone, Copy, Debug, PartialEq, Eq, Structural)]
pub enum EdgeWeightType {
    /// The straight line between two points of the plane.
    Euc2d,
}

/// The part of a problem file that a parse can stop at.
#[derive(Clone, Copy, Debug, PartialEq, Eq, Structural)]
pub enum Expected {
    Name,
    Comment,
    ProblemType,
    Dimension,
    EdgeWeightType,
    Capacity,
    CoordinateSection,
    Coordinate,
    DemandSection,
    Demand,
}

/// Why a text is no problem file: the part that was being read, and the
/// offset of the first byte that does not fit it.
#[derive(Clone, Copy, Debug, PartialEq, Eq, Structural)]
pub struct ParseError {
    pub position: usize,
    pub expected: Expected,
}

/// A routing problem as its file states it.
#[derive(Debug)]
pub struct Problem {
    /// The name of the instance.
    pub name: Vec<u8>,
    /// The remark between the parentheses of the comment line.
    pub comment: Vec<u8>,
    pub problem_type: ProblemType,
    pub edge_weight_type: EdgeWeightType,
    /// The number of nodes, the depot among them.
    pub dimension: usize,
    /// The position of each node; the first is the depot.
    pub coordinates: Vec<(u64, u64)>,
    /// The demand of each node.
    pub demands: Vec<usize>,
    /// What one vehicle can carry.
    pub capacity: usize,
}

/// What a problem holds, as mathematical values.
pub struct ProblemView {
    pub name: Seq<u8>,
    pub comment: Seq<u8>,
    pub dimension: nat,
    pub coordinates: Seq<(u64, u64)>,
    pub demands: Seq<usize>,
    pub capacity: nat,
}

impl View for Problem {
    type V = ProblemView;

    open spec fn view(&self) -> ProblemView {
        ProblemView {
            name: self.name@,
            comment: self.comment@,
            dimension: self.dimension as nat,
            coordinates: self.coordinates@,
            demands: self.demands@,
            capacity: self.capacity as nat,
        }
    }
}

/// The text between a key and its value.
pub open spec fn separator() -> Seq<u8> {
    " : ".spec_bytes()
}

/// The end of a line: spaces, if any, and a line ending. Gives the position
/// of the next line, or the offset at which the line ending is missing.
pub open spec fn rest_of_line(s: Seq<u8>, pos: int) -> Result<int, int> {
    let blank_end = run_end(s, Class::Space, pos);
    match line_end(s, blank_end) {
        Some(next) => Ok(next),
        None => Err(blank_end),
    }
}

/// A key and the separator after it. Gives the position of the value.
pub open spec fn keyed(s: Seq<u8>, pos: int, key: Seq<u8>) -> Result<int, int> {
    if !has_tag(s, pos, key) {
        Err(pos)
    } else if !has_tag(s, pos + key.len(), separator()) {
        Err(pos + key.len())
    } else {
        Ok(pos + key.len() + separator().len())
    }
}

/// A header line whose value is one word of visible characters. Gives the
/// bounds of the word and the position of the next line.
pub open spec fn word_line(s: Seq<u8>, pos: int, key: Seq<u8>) -> Result<((int, int), int), int> {
    match keyed(s, pos, key) {
        Err(at) => Err(at),
        Ok(start) => {
            let end = run_end(s, Class::Graphic, start);
            if end == start {
                Err(start)
            } else {
                match rest_of_line(s, end) {
                    Err(at) => Err(at),
                    Ok(next) => Ok(((start, end), next)),
                }
            }
        },
    }
}

/// The header line of the comment: free text between parentheses, one byte
/// or more, none of them a closing parenthesis. Gives the bounds of the text
/// and the position of the next line.
pub open spec fn comment_line(s: Seq<u8>, pos: int) -> Result<((int, int), int), int> {
    match keyed(s, pos, "COMMENT".spec_bytes()) {
        Err(at) => Err(at),
        Ok(open) => {
            if !has_tag(s, open, "(".spec_bytes()) {
                Err(open)
            } else {
                let start = open + "(".spec_bytes().len();
                let end = run_end(s, Class::Unclosed, start);
                if end == start || end >= s.len() {
                    Err(start)
                } else {
                    match rest_of_line(s, end + 1) {
                        Err(at) => Err(at),
                        Ok(next) => Ok(((start, end), next)),
                    }
                }
            }
        },
    }
}

/// A line that opens a section. Gives the position of the next line.
pub open spec fn section_line(s: Seq<u8>, pos: int, key: Seq<u8>) -> Result<int, int> {
    if !has_tag(s, pos, key) {
        Err(pos)
    } else {
        rest_of_line(s, pos + key.len())
    }
}

/// One blank or more. Gives the position after them.
pub open spec fn blanks(s: Seq<u8>, pos: int) -> Result<int, int> {
    let end = run_end(s, Class::Blank, pos);
    if end == pos {
        Err(pos)
    } else {
        Ok(end)
    }
}

/// One digit or more, writing a number of at most `limit`. Gives the number
/// and the position after it.
pub open spec fn number(s: Seq<u8>, pos: int, limit: nat) -> Result<(nat, int), int> {
    let end = run_end(s, Class::Digit, pos);
    if end == pos || decimal(s.subrange(pos, end)) > limit {
        Err(pos)
    } else {
        Ok((decimal(s.subrange(pos, end)), end))
    }
}

/// A line of the coordinate section: blanks, the number of the node, which
/// is not looked at, and its two coordinates, with blanks between them.
pub open spec fn coordinate_line(s: Seq<u8>, pos: int) -> Result<((u64, u64), int), int> {
    match blanks(s, pos) {
        Err(at) => Err(at),
        Ok(id_start) => {
            let id_end = run_end(s, Class::Digit, id_start);
            if id_end == id_start {
                Err(id_start)
            } else {
                match blanks(s, id_end) {
                    Err(at) => Err(at),
                    Ok(x_start) => match number(s, x_start, u64::MAX as nat) {
                        Err(at) => Err(at),
                        Ok((x, x_end)) => match blanks(s, x_end) {
                            Err(at) => Err(at),
                            Ok(y_start) => match number(s, y_start, u64::MAX as nat) {
                                Err(at) => Err(at),
                                Ok((y, y_end)) => match rest_of_line(s, y_end) {
                                    Err(at) => Err(at),
                                    Ok(next) => Ok(((x as u64, y as u64), next)),
                                },
                            },
                        },
                    },
                }
            }
        },
    }
}

/// A line of the demand section: the number of the node, which is not
/// looked at, blanks, and its demand.
pub open spec fn demand_line(s: Seq<u8>, pos: int) -> Result<(usize, int), int> {
    let id_end = run_end(s, Class::Digit, pos);
    if id_end == pos {
        Err(pos)
    } else {
        match blanks(s, id_end) {
            Err(at) => Err(at),
            Ok(start) => match number(s, start, usize::MAX as nat) {
                Err(at) => Err(at),
                Ok((demand, end)) => match rest_of_line(s, end) {
                    Err(at) => Err(at),
                    Ok(next) => Ok((demand as usize, next)),
                },
            },
        }
    }
}

/// The first `count` lines of the coordinate section, which begins at `pos`.
pub open spec fn coordinate_lines(s: Seq<u8>, pos: int, count: nat) -> Result<
    (Seq<(u64, u64)>, int),
    int,
>
    decreases count,
{
    if count == 0 {
        Ok((Seq::empty(), pos))
    } else {
        match coordinate_lines(s, pos, (count - 1) as nat) {
            Err(at) => Err(at),
            Ok((before, line)) => match coordinate_line(s, line) {
                Err(at) => Err(at),
                Ok((point, next)) => Ok((before.push(point), next)),
            },
        }
    }
}

/// The first `count` lines of the demand section, which begins at `pos`.
pub open spec fn demand_lines(s: Seq<u8>, pos: int, count: nat) -> Result<(Seq<usize>, int), int>
    decreases count,
{
    if count == 0 {
        Ok((Seq::empty(), pos))
    } else {
        match demand_lines(s, pos, (count - 1) as nat) {
            Err(at) => Err(at),
            Ok((before, line)) => match demand_line(s, line) {
                Err(at) => Err(at),
                Ok((demand, next)) => Ok((before.push(demand), next)),
            },
        }
    }
}

/// A header line whose word has to begin with a fixed name. Gives the
/// position of the next line.
pub open spec fn named_line(s: Seq<u8>, pos: int, key: Seq<u8>, name: Seq<u8>) -> Result<
    int,
    int,
> {
    match word_line(s, pos, key) {
        Err(at) => Err(at),
        Ok(((start, end), next)) => if has_tag(s.subrange(start, end), 0, name) {
            Ok(next)
        } else {
            Err(start)
        },
    }
}

/// A header line whose word is a number that a `usize` holds. Gives the
/// number and the position of the next line.
pub open spec fn count_line(s: Seq<u8>, pos: int, key: Seq<u8>) -> Result<(nat, int), int> {
    match word_line(s, pos, key) {
        Err(at) => Err(at),
        Ok(((start, end), next)) => match unsigned_word(s.subrange(start, end)) {
            Some(value) => if value <= usize::MAX {
                Ok((value, next))
            } else {
                Err(start)
            },
            None => Err(start),
        },
    }
}

/// The failure of a parse at an offset of the text.
pub open spec fn stuck(at: int, expected: Expected) -> ParseError {
    ParseError { position: at as usize, expected }
}

/// What the header of a problem file states, and where its sections begin.
pub struct Header {
    pub name: (int, int),
    pub comment: (int, int),
    pub dimension: nat,
    pub capacity: nat,
    pub body: int,
}

/// The six header lines, in their order: name, comment, type, dimension,
/// edge weight type, capacity.
pub open spec fn header(s: Seq<u8>) -> Result<Header, ParseError> {
    match word_line(s, 0, "NAME".spec_bytes()) {
        Err(at) => Err(stuck(at, Expected::Name)),
        Ok((name, comment_at)) => match comment_line(s, comment_at) {
            Err(at) => Err(stuck(at, Expected::Comment)),
            Ok((comment, type_at)) => match named_line(
                s,
                type_at,
                "TYPE".spec_bytes(),
                "CVRP".spec_bytes(),
            ) {
                Err(at) => Err(stuck(at, Expected::ProblemType)),
                Ok(dimension_at) => match count_line(s, dimension_at, "DIMENSION".spec_bytes()) {
                    Err(at) => Err(stuck(at, Expected::Dimension)),
                    Ok((dimension, weight_at)) => match named_line(
                        s,
                        weight_at,
                        "EDGE_WEIGHT_TYPE".spec_bytes(),
                        "EUC_2D".spec_bytes(),
                    ) {
                        Err(at) => Err(stuck(at, Expected::EdgeWeightType)),
                        Ok(capacity_at) => match count_line(
                            s,
                            capacity_at,
                            "CAPACITY".spec_bytes(),
                        ) {
                            Err(at) => Err(stuck(at, Expected::Capacity)),
                            Ok((capacity, body)) => Ok(
                                Header { name, comment, dimension, capacity, body },
                            ),
                        },
                    },
                },
            },
        },
    }
}

/// The problem that a text states: the header, then the coordinate section
/// and the demand section with one line for each node. What follows the
/// demand section is not looked at.
pub open spec fn parsed(s: Seq<u8>) -> Result<ProblemView, ParseError> {
    match header(s) {
        Err(error) => Err(error),
        Ok(head) => match section_line(s, head.body, "NODE_COORD_SECTION".spec_bytes()) {
            Err(at) => Err(stuck(at, Expected::CoordinateSection)),
            Ok(first) => match coordinate_lines(s, first, head.dimension) {
                Err(at) => Err(stuck(at, Expected::Coordinate)),
                Ok((coordinates, section)) => match section_line(
                    s,
                    section,
                    "DEMAND_SECTION".spec_bytes(),
                ) {
                    Err(at) => Err(stuck(at, Expected::DemandSection)),
                    Ok(line) => match demand_lines(s, line, head.dimension) {
                        Err(at) => Err(stuck(at, Expected::Demand)),
                        Ok((demands, end)) => Ok(
                            ProblemView {
                                name: s.subrange(head.name.0, head.name.1),
                                comment: s.subrange(head.comment.0, head.comment.1),
                                dimension: head.dimension,
                                coordinates,
                                demands,
                                capacity: head.capacity,
                            },
                        ),
                    },
                },
            },
        },
    }
}

/// A section that stops at one of its lines stops there whatever number of
/// lines is asked for beyond it.
pub proof fn lemma_coordinate_lines_stuck(s: Seq<u8>, pos: int, read: nat, count: nat)
    requires
        read <= count,
        coordinate_lines(s, pos, read).is_err(),
    ensures
        coordinate_lines(s, pos, count) == coordinate_lines(s, pos, read),
    decreases count,
{
    if read < count {
        lemma_coordinate_lines_stuck(s, pos, read, (count - 1) as nat);
    }
}

/// A section that stops at one of its lines stops there whatever number of
/// lines is asked for beyond it.
pub proof fn lemma_demand_lines_stuck(s: Seq<u8>, pos: int, read: nat, count: nat)
    requires
        read <= count,
        demand_lines(s, pos, read).is_err(),
    ensures
        demand_lines(s, pos, count) == demand_lines(s, pos, read),
    decreases count,
{
    if read < count {
        lemma_demand_lines_stuck(s, pos, read, (count - 1) as nat);
    }
}

/// Whether a position that was read is the one that the format gives.
pub open spec fn same_step(read: Result<usize, usize>, given: Result<int, int>, len: int) -> bool {
    match read {
        Ok(next) => given == Ok::<int, int>(next as int) && next <= len,
        Err(at) => given == Err::<int, int>(at as int) && at <= len,
    }
}

/// Whether a value that was read, and the position after it, are the ones
/// that the format gives.
pub open spec fn same_value<V>(
    read: Result<(V, usize), usize>,
    given: Result<(V, int), int>,
    len: int,
) -> bool {
    match read {
        Ok((value, next)) => given == Ok::<(V, int), int>((value, next as int)) && next <= len,
        Err(at) => given == Err::<(V, int), int>(at as int) && at <= len,
    }
}

/// Whether the bounds of a piece of text that was read, and the position
/// after its line, are the ones that the format gives.
pub open spec fn same_span(
    read: Result<((usize, usize), usize), usize>,
    given: Result<((int, int), int), int>,
    len: int,
) -> bool {
    match read {
        Ok(((start, end), next)) => given == Ok::<((int, int), int), int>(
            ((start as int, end as int), next as int),
        ) && start < end <= next <= len,
        Err(at) => given == Err::<((int, int), int), int>(at as int) && at <= len,
    }
}

fn read_rest_of_line(input: &[u8], pos: usize) -> (r: Result<usize, usize>)
    requires
        pos <= input@.len(),
    ensures
        same_step(r, rest_of_line(input@, pos as int), input@.len() as int),
        r matches Ok(next) ==> pos < next,
{
    let blank_end = scan(input, Class::Space, pos);
    match match_line_end(input, blank_end) {
        Some(next) => Ok(next),
        None => Err(blank_end),
    }
}

fn read_key(input: &[u8], pos: usize, key: &str) -> (r: Result<usize, usize>)
    requires
        pos <= input@.len(),
    ensures
        same_step(r, keyed(input@, pos as int, key.spec_bytes()), input@.len() as int),
        r matches Ok(next) ==> pos <= next,
{
    if !match_tag(input, pos, key) {
        return Err(pos);
    }
    let after = pos + key.as_bytes().len();
    if !match_tag(input, after, " : ") {
        return Err(after);
    }
    Ok(after + " : ".as_bytes().len())
}

fn read_word_line(input: &[u8], pos: usize, key: &str) -> (r: Result<
    ((usize, usize), usize),
    usize,
>)
    requires
        pos <= input@.len(),
    ensures
        same_span(r, word_line(input@, pos as int, key.spec_bytes()), input@.len() as int),
{
    let start = match read_key(input, pos, key) {
        Ok(start) => start,
        Err(at) => {
            return Err(at);
        },
    };
    let end = scan(input, Class::Graphic, start);
    if end == start {
        return Err(start);
    }
    match read_rest_of_line(input, end) {
        Ok(next) => Ok(((start, end), next)),
        Err(at) => Err(at),
    }
}

fn read_comment_line(input: &[u8], pos: usize) -> (r: Result<((usize, usize), usize), usize>)
    requires
        pos <= input@.len(),
    ensures
        same_span(r, comment_line(input@, pos as int), input@.len() as int),
{
    let open = match read_key(input, pos, "COMMENT") {
        Ok(open) => open,
        Err(at) => {
            return Err(at);
        },
    };
    if !match_tag(input, open, "(") {
        return Err(open);
    }
    let start = open + "(".as_bytes().len();
    let end = scan(input, Class::Unclosed, start);
    if end == start || end >= input.len() {
        return Err(start);
    }
    match read_rest_of_line(input, end + 1) {
        Ok(next) => Ok(((start, end), next)),
        Err(at) => Err(at),
    }
}

fn read_section_line(input: &[u8], pos: usize, key: &str) -> (r: Result<usize, usize>)
    requires
        pos <= input@.len(),
    ensures
        same_step(r, section_line(input@, pos as int, key.spec_bytes()), input@.len() as int),
{
    if !match_tag(input, pos, key) {
        return Err(pos);
    }
    read_rest_of_line(input, pos + key.as_bytes().len())
}

fn read_blanks(input: &[u8], pos: usize) -> (r: Result<usize, usize>)
    requires
        pos <= input@.len(),
    ensures
        same_step(r, blanks(input@, pos as int), input@.len() as int),
{
    let end = scan(input, Class::Blank, pos);
    if end == pos {
        Err(pos)
    } else {
        Ok(end)
    }
}

fn read_digits(input: &[u8], pos: usize, limit: u64) -> (r: Result<(u64, usize), usize>)
    requires
        pos <= input@.len(),
    ensures
        match r {
            Ok((value, next)) => number(input@, pos as int, limit as nat) == Ok::<(nat, int), int>(
                (value as nat, next as int),
            ) && next <= input@.len(),
            Err(at) => number(input@, pos as int, limit as nat) == Err::<(nat, int), int>(
                at as int,
            ) && at <= input@.len(),
        },
{
    let end = scan(input, Class::Digit, pos);
    if end == pos {
        return Err(pos);
    }
    proof {
        lemma_run_end(input@, Class::Digit, pos as int);
    }
    match read_number(input, pos, end, limit) {
        Some(value) => Ok((value, end)),
        None => Err(pos),
    }
}

fn read_coordinate_line(input: &[u8], pos: usize) -> (r: Result<((u64, u64), usize), usize>)
    requires
        pos <= input@.len(),
    ensures
        same_value(r, coordinate_line(input@, pos as int), input@.len() as int),
{
    let id_start = match read_blanks(input, pos) {
        Ok(next) => next,
        Err(at) => {
            return Err(at);
        },
    };
    let id_end = scan(input, Class::Digit, id_start);
    if id_end == id_start {
        return Err(id_start);
    }
    let x_start = match read_blanks(input, id_end) {
        Ok(next) => next,
        Err(at) => {
            return Err(at);
        },
    };
    let (x, x_end) = match read_digits(input, x_start, u64::MAX) {
        Ok(read) => read,
        Err(at) => {
            return Err(at);
        },
    };
    let y_start = match read_blanks(input, x_end) {
        Ok(next) => next,
        Err(at) => {
            return Err(at);
        },
    };
    let (y, y_end) = match read_digits(input, y_start, u64::MAX) {
        Ok(read) => read,
        Err(at) => {
            return Err(at);
        },
    };
    match read_rest_of_line(input, y_end) {
        Ok(next) => Ok(((x, y), next)),
        Err(at) => Err(at),
    }
}

fn read_demand_line(input: &[u8], pos: usize) -> (r: Result<(usize, usize), usize>)
    requires
        pos <= input@.len(),
    ensures
        same_value(r, demand_line(input@, pos as int), input@.len() as int),
{
    let id_end = scan(input, Class::Digit, pos);
    if id_end == pos {
        return Err(pos);
    }
    let start = match read_blanks(input, id_end) {
        Ok(next) => next,
        Err(at) => {
            return Err(at);
        },
    };
    let (demand, end) = match read_digits(input, start, usize::MAX as u64) {
        Ok(read) => read,
        Err(at) => {
            return Err(at);
        },
    };
    match read_rest_of_line(input, end) {
        Ok(next) => Ok((demand as usize, next)),
        Err(at) => Err(at),
    }
}

fn read_coordinate_lines(input: &[u8], pos: usize, count: usize) -> (r: Result<
    (Vec<(u64, u64)>, usize),
    usize,
>)
    requires
        pos <= input@.len(),
    ensures
        match r {
            Ok((points, next)) => coordinate_lines(input@, pos as int, count as nat) == Ok::<
                (Seq<(u64, u64)>, int),
                int,
            >((points@, next as int)) && next <= input@.len() && points@.len() == count,
            Err(at) => coordinate_lines(input@, pos as int, count as nat) == Err::<
                (Seq<(u64, u64)>, int),
                int,
            >(at as int) && at <= input@.len(),
        },
{
    let mut points: Vec<(u64, u64)> = Vec::new();
    let mut cur: usize = pos;
    let mut read: usize = 0;
    while read < count
        invariant
            read <= count,
            cur <= input@.len(),
            points@.len() == read,
            coordinate_lines(input@, pos as int, read as nat) == Ok::<
                (Seq<(u64, u64)>, int),
                int,
            >((points@, cur as int)),
        decreases count - read,
    {
        match read_coordinate_line(input, cur) {
            Err(at) => {
                proof {
                    lemma_coordinate_lines_stuck(
                        input@,
                        pos as int,
                        (read + 1) as nat,
                        count as nat,
                    );
                }
                return Err(at);
            },
            Ok((point, next)) => {
                points.push(point);
                cur = next;
            },
        }
        read += 1;
    }
    Ok((points, cur))
}

fn read_demand_lines(input: &[u8], pos: usize, count: usize) -> (r: Result<
    (Vec<usize>, usize),
    usize,
>)
    requires
        pos <= input@.len(),
    ensures
        match r {
            Ok((demands, next)) => demand_lines(input@, pos as int, count as nat) == Ok::<
                (Seq<usize>, int),
                int,
            >((demands@, next as int)) && next <= input@.len() && demands@.len() == count,
            Err(at) => demand_lines(input@, pos as int, count as nat) == Err::<
                (Seq<usize>, int),
                int,
            >(at as int) && at <= input@.len(),
        },
{
    let mut demands: Vec<usize> = Vec::new();
    let mut cur: usize = pos;
    let mut read: usize = 0;
    while read < count
        invariant
            read <= count,
            cur <= input@.len(),
            demands@.len() == read,
            demand_lines(input@, pos as int, read as nat) == Ok::<(Seq<usize>, int), int>(
                (demands@, cur as int),
            ),
        decreases count - read,
    {
        match read_demand_line(input, cur) {
            Err(at) => {
                proof {
                    lemma_demand_lines_stuck(input@, pos as int, (read + 1) as nat, count as nat);
                }
                return Err(at);
            },
            Ok((demand, next)) => {
                demands.push(demand);
                cur = next;
            },
        }
        read += 1;
    }
    Ok((demands, cur))
}

impl ProblemType {
    /// Reads the name of a problem type at the beginning of a text, and says
    /// how many bytes the name takes.
    pub fn parse(i: &[u8]) -> (r: Option<(ProblemType, usize)>)
        ensures
            r == if has_tag(i@, 0, "CVRP".spec_bytes()) {
                Some((ProblemType::Cvrp, "CVRP".spec_bytes().len() as usize))
            } else {
                None
            },
    {
        if match_tag(i, 0, "CVRP") {
            Some((ProblemType::Cvrp, "CVRP".as_bytes().len()))
        } else {
            None
        }
    }
}

impl EdgeWeightType {
    /// Reads the name of an edge weight type at the beginning of a text, and
    /// says how many bytes the name takes.
    pub fn parse(i: &[u8]) -> (r: Option<(EdgeWeightType, usize)>)
        ensures
            r == if has_tag(i@, 0, "EUC_2D".spec_bytes()) {
                Some((EdgeWeightType::Euc2d, "EUC_2D".spec_bytes().len() as usize))
            } else {
                None
            },
    {
        if match_tag(i, 0, "EUC_2D") {
            Some((EdgeWeightType::Euc2d, "EUC_2D".as_bytes().len()))
        } else {
            None
        }
    }
}

fn read_count_line(input: &[u8], pos: usize, key: &str) -> (r: Result<(usize, usize), usize>)
    requires
        pos <= input@.len(),
    ensures
        match r {
            Ok((value, next)) => count_line(input@, pos as int, key.spec_bytes()) == Ok::<
                (nat, int),
                int,
            >((value as nat, next as int)) && next <= input@.len(),
            Err(at) => count_line(input@, pos as int, key.spec_bytes()) == Err::<(nat, int), int>(
                at as int,
            ) && at <= input@.len(),
        },
{
    let ((start, end), next) = match read_word_line(input, pos, key) {
        Ok(read) => read,
        Err(at) => {
            return Err(at);
        },
    };
    match read_unsigned(input, start, end, usize::MAX as u64) {
        Some(value) => Ok((value as usize, next)),
        None => Err(start),
    }
}

impl ProblemView {
    /// Whether the problem can be served: it has a depot, which demands
    /// nothing, a position and a demand for each node, and no node demands
    /// more than a vehicle can carry.
    pub open spec fn feasible(self) -> bool {
        &&& self.dimension >= 1
        &&& self.coordinates.len() == self.dimension
        &&& self.demands.len() == self.dimension
        &&& self.demands[0] == 0
        &&& forall|n: int| 0 <= n < self.demands.len() ==> #[trigger] self.demands[n] <= self.capacity
    }
}

impl Problem {
    /// Whether the problem has a position and a demand for each of its
    /// nodes.
    pub open spec fn wf(&self) -> bool {
        &&& self.coordinates@.len() == self.dimension
        &&& self.demands@.len() == self.dimension
    }

    /// Whether the problem can be served.
    pub fn is_feasible(&self) -> (r: bool)
        ensures
            r == self@.feasible(),
    {
        if self.dimension < 1 || self.coordinates.len() != self.dimension || self.demands.len()
            != self.dimension || self.demands[0] != 0 {
            return false;
        }
        let mut n: usize = 0;
        while n < self.demands.len()
            invariant
                n <= self.demands@.len(),
                forall|m: int| 0 <= m < n ==> #[trigger] self.demands@[m] <= self.capacity,
            decreases self.demands@.len() - n,
        {
            if self.demands[n] > self.capacity {
                return false;
            }
            n += 1;
        }
        true
    }

    fn parse_header(input: &[u8]) -> (r: Result<((usize, usize), (usize, usize), usize, usize, usize), ParseError>)
        ensures
            match r {
                Ok((name, comment, dimension, capacity, body)) => header(input@) == Ok::<
                    Header,
                    ParseError,
                >(
                    Header {
                        name: (name.0 as int, name.1 as int),
                        comment: (comment.0 as int, comment.1 as int),
                        dimension: dimension as nat,
                        capacity: capacity as nat,
                        body: body as int,
                    },
                ) && name.0 <= name.1 <= input@.len() && comment.0 <= comment.1 <= input@.len()
                    && body <= input@.len(),
                Err(error) => header(input@) == Err::<Header, ParseError>(error),
            },
    {
        let (name, comment_at) = match read_word_line(input, 0, "NAME") {
            Ok(read) => read,
            Err(at) => {
                return Err(ParseError { position: at, expected: Expected::Name });
            },
        };
        let (comment, type_at) = match read_comment_line(input, comment_at) {
            Ok(read) => read,
            Err(at) => {
                return Err(ParseError { position: at, expected: Expected::Comment });
            },
        };
        let (kind, dimension_at) = match read_word_line(input, type_at, "TYPE") {
            Ok(read) => read,
            Err(at) => {
                return Err(ParseError { position: at, expected: Expected::ProblemType });
            },
        };
        if ProblemType::parse(slice_subrange(input, kind.0, kind.1)).is_none() {
            return Err(ParseError { position: kind.0, expected: Expected::ProblemType });
        }
        let (dimension, weight_at) = match read_count_line(input, dimension_at, "DIMENSION") {
            Ok(read) => read,
            Err(at) => {
                return Err(ParseError { position: at, expected: Expected::Dimension });
            },
        };
        let (weight, capacity_at) = match read_word_line(input, weight_at, "EDGE_WEIGHT_TYPE") {
            Ok(read) => read,
            Err(at) => {
                return Err(ParseError { position: at, expected: Expected::EdgeWeightType });
            },
        };
        if EdgeWeightType::parse(slice_subrange(input, weight.0, weight.1)).is_none() {
            return Err(ParseError { position: weight.0, expected: Expected::EdgeWeightType });
        }
        let (capacity, body) = match read_count_line(input, capacity_at, "CAPACITY") {
            Ok(read) => read,
            Err(at) => {
                return Err(ParseError { position: at, expected: Expected::Capacity });
            },
        };
        Ok((name, comment, dimension, capacity, body))
    }

    /// Reads a problem from the text of its file.
    pub fn parse(i: &[u8]) -> (r: Result<Problem, ParseError>)
        ensures
            match r {
                Ok(problem) => parsed(i@) == Ok::<ProblemView, ParseError>(problem@)
                    && problem.wf(),
                Err(error) => parsed(i@) == Err::<ProblemView, ParseError>(error),
            },
    {
        let (name, comment, dimension, capacity, body) = match Self::parse_header(i) {
            Ok(head) => head,
            Err(error) => {
                return Err(error);
            },
        };
        let first = match read_section_line(i, body, "NODE_COORD_SECTION") {
            Ok(next) => next,
            Err(at) => {
                return Err(ParseError { position: at, expected: Expected::CoordinateSection });
            },
        };
        let (coordinates, section) = match read_coordinate_lines(i, first, dimension) {
            Ok(read) => read,
            Err(at) => {
                return Err(ParseError { position: at, expected: Expected::Coordinate });
            },
        };
        let line = match read_section_line(i, section, "DEMAND_SECTION") {
            Ok(next) => next,
            Err(at) => {
                return Err(ParseError { position: at, expected: Expected::DemandSection });
            },
        };
        let (demands, _) = match read_demand_lines(i, line, dimension) {
            Ok(read) => read,
            Err(at) => {
                return Err(ParseError { position: at, expected: Expected::Demand });
            },
        };
        Ok(
            Problem {
                name: slice_to_vec(slice_subrange(i, name.0, name.1)),
                comment: slice_to_vec(slice_subrange(i, comment.0, comment.1)),
                problem_type: ProblemType::Cvrp,
                edge_weight_type: EdgeWeightType::Euc2d,
                dimension,
                coordinates,
                demands,
                capacity,
            },
        )
    }

    /// Reads a problem from the contents of its file.
    pub fn try_from_vrp(vrp: &str) -> (r: Result<Problem, ParseError>)
        ensures
            match r {
                Ok(problem) => parsed(vrp.spec_bytes()) == Ok::<ProblemView, ParseError>(problem@)
                    && problem.wf(),
                Err(error) => parsed(vrp.spec_bytes()) == Err::<ProblemView, ParseError>(error),
            },
    {
        Self::parse(vrp.as_bytes())
    }
}

} // verus!
