use vstd::prelude::*;
use vstd::std_specs::iter::IteratorSpec;

use crate::number::{as_number, read_number, ParsingError};

verus! {

/// `std::io::Error`, carried unopened from a line source to the caller.
#[verifier::external_type_specification]
#[verifier::external_body]
pub struct ExIoError(std::io::Error);

/// Why a summation stopped.
#[derive(Debug)]
pub enum ApplicationError {
    /// The line source failed to give the next line.
    InputError(std::io::Error),
    /// A line could not be read as a number.
    ParsingError(ParsingError),
}

impl From<std::io::Error> for ApplicationError {
    fn from(e: std::io::Error) -> (r: ApplicationError)
        ensures
            r == ApplicationError::InputError(e),
    {
        ApplicationError::InputError(e)
    }
}

impl vstd::std_specs::convert::FromSpecImpl<std::io::Error> for ApplicationError {
    open spec fn obeys_from_spec() -> bool {
        true
    }

    open spec fn from_spec(e: std::io::Error) -> ApplicationError {
        ApplicationError::InputError(e)
    }
}

impl From<ParsingError> for ApplicationError {
    fn from(e: ParsingError) -> (r: ApplicationError)
        ensures
            r == ApplicationError::ParsingError(e),
    {
        ApplicationError::ParsingError(e)
    }
}

impl vstd::std_specs::convert::FromSpecImpl<ParsingError> for ApplicationError {
    open spec fn obeys_from_spec() -> bool {
        true
    }

    open spec fn from_spec(e: ParsingError) -> ApplicationError {
        ApplicationError::ParsingError(e)
    }
}

/// `x` clamped to the range of `isize`: how each addition to the running
/// total ends.
pub open spec fn saturate(x: int) -> int {
    if x > isize::MAX {
        isize::MAX as int
    } else if x < isize::MIN {
        isize::MIN as int
    } else {
        x
    }
}

/// An item of a line source as the summation sees it: `Some` line, or
/// `None` where the source failed to give one.
pub open spec fn acquired(item: Result<String, std::io::Error>) -> Option<Seq<char>> {
    match item {
        Ok(s) => Some(s@),
        Err(_) => None,
    }
}

pub open spec fn acquired_lines(items: Seq<Result<String, std::io::Error>>) -> Seq<Option<Seq<char>>> {
    items.map_values(|item: Result<String, std::io::Error>| acquired(item))
}

/// Text fragments, each a line that was acquired.
pub open spec fn given_lines(items: Seq<&str>) -> Seq<Option<Seq<char>>> {
    items.map_values(|s: &str| Some(s@))
}

/// An item that adds to the total: a line that was acquired and reads as a number.
pub open spec fn line_ok(line: Option<Seq<char>>) -> bool {
    line matches Some(s) && read_number(s) is Ok
}

pub open spec fn line_value(line: Option<Seq<char>>) -> int {
    read_number(line->Some_0)->Ok_0
}

/// The position of the first item that does not add to the total, or the
/// number of items where every one does.
pub open spec fn first_failure(lines: Seq<Option<Seq<char>>>) -> int
    decreases lines.len(),
{
    if lines.len() == 0 || !line_ok(lines[0]) {
        0
    } else {
        1 + first_failure(lines.drop_first())
    }
}

/// The total, starting from `acc`, of the items before the first failure,
/// each addition saturating.
pub open spec fn total_from(acc: int, lines: Seq<Option<Seq<char>>>) -> int
    decreases lines.len(),
{
    if lines.len() == 0 || !line_ok(lines[0]) {
        acc
    } else {
        total_from(saturate(acc + line_value(lines[0])), lines.drop_first())
    }
}

pub open spec fn total(lines: Seq<Option<Seq<char>>>) -> int {
    total_from(0, lines)
}

/// How many items a summation takes from its source: all of them, or those
/// up to and including the first failure.
pub open spec fn pulled(lines: Seq<Option<Seq<char>>>) -> int {
    if first_failure(lines) < lines.len() {
        first_failure(lines) + 1
    } else {
        lines.len() as int
    }
}

/// The error that reports a failed item: the source's own error, or the
/// line with the reason it is not a number.
pub open spec fn reports(item: Result<String, std::io::Error>, e: ApplicationError) -> bool {
    match item {
        Ok(s) => e matches ApplicationError::ParsingError(p) && p@ == (
            s@,
            read_number(s@)->Err_0,
        ),
        Err(io) => e == ApplicationError::InputError(io),
    }
}

/// Adds the number that `line` reads as to `total`, saturating.
fn add_line(total: isize, line: &str) -> (r: Result<isize, ParsingError>)
    ensures
        r is Ok <==> line_ok(Some(line@)),
        r matches Ok(t) ==> t == saturate(total + line_value(Some(line@))),
        r matches Err(e) ==> e@ == (line@, read_number(line@)->Err_0),
{
    let v = as_number(line)?;
    let exact: i128 = total as i128 + v as i128;
    if exact > isize::MAX as i128 {
        Ok(isize::MAX)
    } else if exact < isize::MIN as i128 {
        Ok(isize::MIN)
    } else {
        Ok(exact as isize)
    }
}

/// Sums the lines that `lines` gives, pulling items one at a time and none
/// after the first that fails; what follows it stays in `lines`.
///
/// The source must be finite (it obeys the iterator laws, so it ends with
/// `None`) and carry a measure that each pull decreases. Each addition to the
/// running total saturates at the bounds of `isize` rather than wrapping.
pub fn sum_from<T>(lines: &mut T) -> (r: Result<isize, ApplicationError>)
    where
        T: Iterator<Item = Result<String, std::io::Error>>,
    requires
        (*old(lines)).obeys_prophetic_iter_laws(),
        (*old(lines)).decrease() is Some,
    ensures
        r is Ok <==> first_failure(acquired_lines((*old(lines)).remaining()))
            == (*old(lines)).remaining().len(),
        r matches Ok(t) ==> t == total(acquired_lines((*old(lines)).remaining())),
        r matches Err(e) ==> reports(
            (*old(lines)).remaining()[first_failure(acquired_lines((*old(lines)).remaining()))],
            e,
        ),
        (*final(lines)).remaining() == (*old(lines)).remaining().skip(
            pulled(acquired_lines((*old(lines)).remaining())),
        ),
{
    let ghost items = (*lines).remaining();
    let ghost all = acquired_lines(items);
    assert(items == (*old(lines)).remaining());
    let ghost mut i: int = 0;
    let mut sum: isize = 0;
    assert(items.skip(0) =~= items);
    loop
        invariant
            (*lines).obeys_prophetic_iter_laws(),
            (*lines).decrease() is Some,
            0 <= i <= items.len(),
            items == (*old(lines)).remaining(),
            all == acquired_lines(items),
            (*lines).remaining() == items.skip(i),
            first_failure(all) == i + first_failure(acquired_lines(items.skip(i))),
            total(all) == total_from(sum as int, acquired_lines(items.skip(i))),
        decreases (*lines).decrease()->0,
    {
        let ghost rest = acquired_lines(items.skip(i));
        let item = lines.next();
        match item {
            None => {
                assert(rest.len() == 0);
                assert(first_failure(rest) == 0);
                assert(pulled(all) == items.len());
                return Ok(sum);
            },
            Some(Err(e)) => {
                assert(rest[0] == acquired(items[i]));
                assert(first_failure(rest) == 0);
                assert(items.skip(i).drop_first() =~= items.skip(i + 1));
                return Err(ApplicationError::InputError(e));
            },
            Some(Ok(s)) => {
                assert(rest[0] == acquired(items[i]));
                match add_line(sum, s.as_str()) {
                    Ok(t) => {
                        assert(rest.drop_first() =~= acquired_lines(items.skip(i + 1)));
                        assert(items.skip(i).drop_first() =~= items.skip(i + 1));
                        sum = t;
                        proof {
                            i = i + 1;
                        }
                    },
                    Err(p) => {
                        assert(first_failure(rest) == 0);
                        assert(items.skip(i).drop_first() =~= items.skip(i + 1));
                        return Err(ApplicationError::ParsingError(p));
                    },
                }
            },
        }
    }
}

/// Sums the lines that `lines` gives, stopping at the first item that the
/// source failed to give or that does not read as a number. The total
/// saturates at the bounds of `isize`, as in `sum_from`.
pub fn sum<T>(lines: T) -> (r: Result<isize, ApplicationError>)
    where
        T: Iterator<Item = Result<String, std::io::Error>>,
    requires
        lines.obeys_prophetic_iter_laws(),
        lines.decrease() is Some,
    ensures
        r is Ok <==> first_failure(acquired_lines(lines.remaining())) == lines.remaining().len(),
        r matches Ok(t) ==> t == total(acquired_lines(lines.remaining())),
        r matches Err(e) ==> reports(
            lines.remaining()[first_failure(acquired_lines(lines.remaining()))],
            e,
        ),
{
    let mut lines = lines;
    sum_from(&mut lines)
}

/// Sums text fragments, each taken as a line that was acquired; it fails
/// only on a fragment that does not read as a number.
pub fn sum_strings<'a, T>(strings: T) -> (r: Result<isize, ApplicationError>)
    where
        T: Iterator<Item = &'a str>,
    requires
        strings.obeys_prophetic_iter_laws(),
        strings.decrease() is Some,
    ensures
        r is Ok <==> first_failure(given_lines(strings.remaining()))
            == strings.remaining().len(),
        r matches Ok(t) ==> t == total(given_lines(strings.remaining())),
        r matches Err(e) ==> e matches ApplicationError::ParsingError(p) && p@ == (
            strings.remaining()[first_failure(given_lines(strings.remaining()))]@,
            read_number(
                strings.remaining()[first_failure(given_lines(strings.remaining()))]@,
            )->Err_0,
        ),
{
    let mut source = strings;
    let ghost items = source.remaining();
    let ghost all = given_lines(items);
    let ghost mut i: int = 0;
    let mut sum: isize = 0;
    assert(items.skip(0) =~= items);
    loop
        invariant
            source.obeys_prophetic_iter_laws(),
            source.decrease() is Some,
            items == strings.remaining(),
            0 <= i <= items.len(),
            all == given_lines(items),
            source.remaining() == items.skip(i),
            first_failure(all) == i + first_failure(given_lines(items.skip(i))),
            total(all) == total_from(sum as int, given_lines(items.skip(i))),
        decreases source.decrease()->0,
    {
        let ghost rest = given_lines(items.skip(i));
        match source.next() {
            None => {
                assert(first_failure(rest) == 0);
                return Ok(sum);
            },
            Some(s) => {
                assert(rest[0] == Some(items[i]@));
                match add_line(sum, s) {
                    Ok(t) => {
                        assert(rest.drop_first() =~= given_lines(items.skip(i + 1)));
                        sum = t;
                        proof {
                            i = i + 1;
                        }
                    },
                    Err(p) => {
                        assert(first_failure(rest) == 0);
                        return Err(ApplicationError::ParsingError(p));
                    },
                }
            },
        }
    }
}

/// Summation stops at the first item that fails: when the items before
/// position `k` all read as numbers and the one at `k` does not, the failure
/// is found at `k` and exactly `k + 1` items are pulled, none after it.
pub proof fn lemma_stops_at_failure(lines: Seq<Option<Seq<char>>>, k: int)
    requires
        0 <= k < lines.len(),
        forall|j: int| 0 <= j < k ==> line_ok(#[trigger] lines[j]),
        !line_ok(lines[k]),
    ensures
        first_failure(lines) == k,
        pulled(lines) == k + 1,
    decreases k,
{
    if k > 0 {
        assert(line_ok(lines[0]));
        let rest = lines.drop_first();
        assert forall|j: int| 0 <= j < k - 1 implies line_ok(#[trigger] rest[j]) by {
            assert(rest[j] == lines[j + 1]);
        }
        lemma_stops_at_failure(rest, k - 1);
    }
}

/// A source whose first item is a failure to acquire a line ends the
/// summation with that failure, after one item.
pub proof fn lemma_acquisition_failure_first(items: Seq<Result<String, std::io::Error>>)
    requires
        items.len() > 0,
        items[0] is Err,
    ensures
        first_failure(acquired_lines(items)) == 0,
        pulled(acquired_lines(items)) == 1,
        forall|e: ApplicationError|
            reports(items[0], e) <==> e == ApplicationError::InputError(items[0]->Err_0),
{
    lemma_stops_at_failure(acquired_lines(items), 0);
}

/// Summing the same lines twice gives the same outcome: the total and the
/// point of failure depend on the texts of the lines alone.
pub proof fn lemma_rerun_agrees(first: Seq<&str>, second: Seq<&str>)
    requires
        first.len() == second.len(),
        forall|i: int| 0 <= i < first.len() ==> (#[trigger] first[i])@ == second[i]@,
    ensures
        first_failure(given_lines(first)) == first_failure(given_lines(second)),
        total(given_lines(first)) == total(given_lines(second)),
        pulled(given_lines(first)) == pulled(given_lines(second)),
{
    assert(given_lines(first) =~= given_lines(second));
}

/// Text fragments sum as the acquired lines with the same texts do: the
/// string entry point is the general one on a source that never fails.
pub proof fn lemma_strings_are_acquired_lines(
    strings: Seq<&str>,
    items: Seq<Result<String, std::io::Error>>,
)
    requires
        strings.len() == items.len(),
        forall|i: int|
            0 <= i < items.len() ==> ((#[trigger] items[i]) matches Ok(s) && s@ == strings[i]@),
    ensures
        given_lines(strings) == acquired_lines(items),
{
    assert(given_lines(strings) =~= acquired_lines(items));
}

} // verus!
