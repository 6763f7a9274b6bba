use vstd::prelude::*;
use vstd::string::*;

verus! {

/// Whitespace in the sense of Unicode's `White_Space` property, the set that
/// `char::is_whitespace` and `str::trim` go by.
pub open spec fn is_space(c: char) -> bool {
    ||| '\u{9}' <= c <= '\u{d}'
    ||| c == ' '
    ||| c == '\u{85}'
    ||| c == '\u{a0}'
    ||| c == '\u{1680}'
    ||| '\u{2000}' <= c <= '\u{200a}'
    ||| c == '\u{2028}'
    ||| c == '\u{2029}'
    ||| c == '\u{202f}'
    ||| c == '\u{205f}'
    ||| c == '\u{3000}'
}

/// The text with its leading whitespace removed.
pub open spec fn trim_start(s: Seq<char>) -> Seq<char>
    decreases s.len(),
{
    if s.len() > 0 && is_space(s[0]) {
        trim_start(s.drop_first())
    } else {
        s
    }
}

/// The text with its trailing whitespace removed.
pub open spec fn trim_end(s: Seq<char>) -> Seq<char>
    decreases s.len(),
{
    if s.len() > 0 && is_space(s.last()) {
        trim_end(s.drop_last())
    } else {
        s
    }
}

/// The text with leading and trailing whitespace removed.
pub open spec fn trim(s: Seq<char>) -> Seq<char> {
    trim_end(trim_start(s))
}

fn is_space_char(c: char) -> (r: bool)
    ensures
        r == is_space(c),
{
    ('\u{9}' <= c && c <= '\u{d}') || c == ' ' || c == '\u{85}' || c == '\u{a0}' || c
        == '\u{1680}' || ('\u{2000}' <= c && c <= '\u{200a}') || c == '\u{2028}' || c
        == '\u{2029}' || c == '\u{202f}' || c == '\u{205f}' || c == '\u{3000}'
}

/// The bounds `(a, b)` of the trimmed text within `line`.
fn trimmed_bounds(line: &str) -> (r: (usize, usize))
    ensures
        r.0 <= r.1 <= line@.len(),
        line@.subrange(r.0 as int, r.1 as int) == trim(line@),
{
    let n = line.unicode_len();
    let mut a: usize = 0;
    assert(line@.subrange(0, n as int) =~= line@);
    while a < n && is_space_char(line.get_char(a))
        invariant
            a <= n == line@.len(),
            trim_start(line@) == trim_start(line@.subrange(a as int, n as int)),
        decreases n - a,
    {
        assert(line@.subrange(a as int, n as int).drop_first() =~= line@.subrange(
            a + 1,
            n as int,
        ));
        a = a + 1;
    }
    assert(trim_start(line@.subrange(a as int, n as int)) == line@.subrange(a as int, n as int));
    let mut b: usize = n;
    while b > a && is_space_char(line.get_char(b - 1))
        invariant
            a <= b <= n == line@.len(),
            trim(line@) == trim_end(line@.subrange(a as int, b as int)),
        decreases b - a,
    {
        assert(line@.subrange(a as int, b as int).drop_last() =~= line@.subrange(
            a as int,
            b - 1,
        ));
        b = b - 1;
    }
    (a, b)
}

/// Why a text is not a number of type `isize`.
#[derive(Clone, Copy, Debug, PartialEq, Eq, Structural)]
pub enum ParseErrorKind {
    /// The text, once trimmed, is empty.
    Empty,
    /// A sign with no digits, or a character other than a digit, met before
    /// the digits read so far overflow.
    InvalidDigit,
    /// The digits read so far are above `isize::MAX`.
    PosOverflow,
    /// The digits read so far, negated, are below `isize::MIN`.
    NegOverflow,
}

pub open spec fn is_digit(c: char) -> bool {
    '0' <= c <= '9'
}

pub open spec fn all_digits(d: Seq<char>) -> bool {
    forall|i: int| 0 <= i < d.len() ==> is_digit(#[trigger] d[i])
}

pub open spec fn digit_value(c: char) -> int {
    c as int - '0' as int
}

/// The value of a string of decimal digits, most significant first.
pub open spec fn digits_value(d: Seq<char>) -> int
    decreases d.len(),
{
    if d.len() == 0 {
        0
    } else {
        10 * digits_value(d.drop_last()) + digit_value(d.last())
    }
}

pub open spec fn has_sign(t: Seq<char>) -> bool {
    t.len() > 0 && (t[0] == '+' || t[0] == '-')
}

pub open spec fn is_negative(t: Seq<char>) -> bool {
    t.len() > 0 && t[0] == '-'
}

/// What follows the sign, if there is one.
pub open spec fn unsigned_part(t: Seq<char>) -> Seq<char> {
    if has_sign(t) {
        t.drop_first()
    } else {
        t
    }
}

/// The largest magnitude that a number with this sign may have.
pub open spec fn magnitude_limit(negative: bool) -> int {
    if negative {
        isize::MAX + 1
    } else {
        isize::MAX as int
    }
}

/// The error for a magnitude past `magnitude_limit(negative)`.
pub open spec fn overflow_kind(negative: bool) -> ParseErrorKind {
    if negative {
        ParseErrorKind::NegOverflow
    } else {
        ParseErrorKind::PosOverflow
    }
}

/// Reads the magnitude that follows the sign, left to right: the first
/// character that is not a digit, or the first digit that takes the
/// magnitude past the limit, ends the reading with its error.
pub open spec fn read_digits(d: Seq<char>, negative: bool) -> Result<int, ParseErrorKind>
    decreases d.len(),
{
    if d.len() == 0 {
        Ok(0)
    } else {
        match read_digits(d.drop_last(), negative) {
            Ok(m) => if !is_digit(d.last()) {
                Err(ParseErrorKind::InvalidDigit)
            } else if 10 * m + digit_value(d.last()) > magnitude_limit(negative) {
                Err(overflow_kind(negative))
            } else {
                Ok(10 * m + digit_value(d.last()))
            },
            Err(k) => Err(k),
        }
    }
}

/// Reads an `isize` as `isize::from_str` does: an optional `+` or `-`, then
/// one or more decimal digits, read left to right, and nothing else. Of a
/// stray character and an overflow, the one met first is reported.
pub open spec fn parse_int(t: Seq<char>) -> Result<int, ParseErrorKind> {
    if t.len() == 0 {
        Err(ParseErrorKind::Empty)
    } else if unsigned_part(t).len() == 0 {
        Err(ParseErrorKind::InvalidDigit)
    } else {
        match read_digits(unsigned_part(t), is_negative(t)) {
            Ok(m) => Ok(
                if is_negative(t) {
                    -m
                } else {
                    m
                },
            ),
            Err(k) => Err(k),
        }
    }
}

/// What a line reads as: its trimmed text, parsed.
pub open spec fn read_number(line: Seq<char>) -> Result<int, ParseErrorKind> {
    parse_int(trim(line))
}

proof fn lemma_digits_nonneg(d: Seq<char>)
    requires
        all_digits(d),
    ensures
        digits_value(d) >= 0,
    decreases d.len(),
{
    if d.len() > 0 {
        assert(is_digit(d[d.len() - 1]));
        lemma_digits_nonneg(d.drop_last());
    }
}

/// Digits whose value is within the limit read as that value.
proof fn lemma_read_digits_exact(d: Seq<char>, negative: bool)
    requires
        all_digits(d),
        digits_value(d) <= magnitude_limit(negative),
    ensures
        read_digits(d, negative) == Ok::<int, ParseErrorKind>(digits_value(d)),
    decreases d.len(),
{
    if d.len() > 0 {
        assert(is_digit(d[d.len() - 1]));
        lemma_digits_nonneg(d.drop_last());
        lemma_read_digits_exact(d.drop_last(), negative);
    }
}

/// Once a prefix fails to read, the whole fails with the same error.
proof fn lemma_read_digits_stops(d: Seq<char>, negative: bool, j: int)
    requires
        0 <= j <= d.len(),
        read_digits(d.subrange(0, j), negative) is Err,
    ensures
        read_digits(d, negative) == read_digits(d.subrange(0, j), negative),
    decreases d.len(),
{
    if j == d.len() {
        assert(d.subrange(0, j) =~= d);
    } else {
        assert(d.drop_last().subrange(0, j) =~= d.subrange(0, j));
        lemma_read_digits_stops(d.drop_last(), negative, j);
    }
}

/// Reads the characters `a..b` of `line` with `parse_int`.
fn parse_range(line: &str, a: usize, b: usize) -> (r: Result<isize, ParseErrorKind>)
    requires
        a <= b <= line@.len(),
    ensures
        r matches Ok(v) ==> parse_int(line@.subrange(a as int, b as int)) == Ok::<int, ParseErrorKind>(v as int),
        r matches Err(k) ==> parse_int(line@.subrange(a as int, b as int)) == Err::<int, _>(k),
{
    let ghost t = line@.subrange(a as int, b as int);
    if a == b {
        return Err(ParseErrorKind::Empty);
    }
    let first = line.get_char(a);
    let negative = first == '-';
    let start: usize = if first == '+' || first == '-' {
        a + 1
    } else {
        a
    };
    let ghost d = line@.subrange(start as int, b as int);
    assert(t[0] == first);
    assert(d =~= unsigned_part(t));
    if start == b {
        return Err(ParseErrorKind::InvalidDigit);
    }
    let limit: u128 = if negative {
        isize::MAX as u128 + 1
    } else {
        isize::MAX as u128
    };
    let mut m: u128 = 0;
    let mut i: usize = start;
    assert(d.subrange(0, 0) =~= Seq::<char>::empty());
    while i < b
        invariant
            start <= i <= b <= line@.len(),
            t == line@.subrange(a as int, b as int),
            t.len() > 0,
            negative == is_negative(t),
            d == line@.subrange(start as int, b as int),
            d == unsigned_part(t),
            limit == magnitude_limit(negative),
            read_digits(d.subrange(0, i - start), negative) == Ok::<int, ParseErrorKind>(m as int),
            m <= limit,
        decreases b - i,
    {
        let c = line.get_char(i);
        let ghost next_prefix = d.subrange(0, i + 1 - start);
        assert(next_prefix.drop_last() =~= d.subrange(0, i - start));
        assert(next_prefix.last() == c);
        if !('0' <= c && c <= '9') {
            proof {
                lemma_read_digits_stops(d, negative, i + 1 - start);
            }
            return Err(ParseErrorKind::InvalidDigit);
        }
        let next: u128 = m * 10 + (c as u128 - '0' as u128);
        if next > limit {
            proof {
                lemma_read_digits_stops(d, negative, i + 1 - start);
            }
            return if negative {
                Err(ParseErrorKind::NegOverflow)
            } else {
                Err(ParseErrorKind::PosOverflow)
            };
        }
        m = next;
        i = i + 1;
    }
    assert(d.subrange(0, d.len() as int) =~= d);
    if !negative {
        Ok(m as isize)
    } else if m == limit {
        Ok(isize::MIN)
    } else {
        Ok(-(m as isize))
    }
}

/// A line that could not be read as a number: the line as it was given,
/// untrimmed, and why it failed.
#[derive(Debug)]
pub struct ParsingError {
    input: String,
    kind: ParseErrorKind,
}

impl View for ParsingError {
    type V = (Seq<char>, ParseErrorKind);

    closed spec fn view(&self) -> (Seq<char>, ParseErrorKind) {
        (self.input@, self.kind)
    }
}

/// Why a text is not a number, written as the debug form of std's
/// `ParseIntError` writes it.
pub open spec fn kind_text(kind: ParseErrorKind) -> Seq<char> {
    match kind {
        ParseErrorKind::Empty => "ParseIntError { kind: Empty }"@,
        ParseErrorKind::InvalidDigit => "ParseIntError { kind: InvalidDigit }"@,
        ParseErrorKind::PosOverflow => "ParseIntError { kind: PosOverflow }"@,
        ParseErrorKind::NegOverflow => "ParseIntError { kind: NegOverflow }"@,
    }
}

/// The text that opens a message, up to the quoted line.
pub open spec fn message_head() -> Seq<char> {
    "Could not parse \""@
}

/// The message that reports a failed line: the line verbatim, then why.
pub open spec fn message(input: Seq<char>, kind: ParseErrorKind) -> Seq<char> {
    message_head() + input + "\" to number: "@ + kind_text(kind)
}

impl ParsingError {
    /// The line that failed, untrimmed.
    pub fn input(&self) -> (r: &str)
        ensures
            r@ == self@.0,
    {
        self.input.as_str()
    }

    /// Why the line failed.
    pub fn kind(&self) -> (r: ParseErrorKind)
        ensures
            r == self@.1,
    {
        self.kind
    }

    /// The message for this failure.
    pub fn to_string(&self) -> (r: String)
        ensures
            r@ == message(self@.0, self@.1),
    {
        let mut r = String::from_str("Could not parse \"");
        r.append(self.input.as_str());
        r.append("\" to number: ");
        let why = match self.kind {
            ParseErrorKind::Empty => "ParseIntError { kind: Empty }",
            ParseErrorKind::InvalidDigit => "ParseIntError { kind: InvalidDigit }",
            ParseErrorKind::PosOverflow => "ParseIntError { kind: PosOverflow }",
            ParseErrorKind::NegOverflow => "ParseIntError { kind: NegOverflow }",
        };
        r.append(why);
        r
    }
}

/// Reads one line as a number: trims its leading and trailing whitespace and
/// parses what is left; on failure, keeps the untrimmed line.
pub fn as_number(line: &str) -> (r: Result<isize, ParsingError>)
    ensures
        r is Ok <==> read_number(line@) is Ok,
        r matches Ok(v) ==> read_number(line@) == Ok::<int, ParseErrorKind>(v as int),
        r matches Err(e) ==> e@ == (line@, read_number(line@)->Err_0),
{
    let (a, b) = trimmed_bounds(line);
    match parse_range(line, a, b) {
        Ok(v) => Ok(v),
        Err(kind) => Err(ParsingError { input: String::from_str(line), kind }),
    }
}

pub open spec fn all_space(s: Seq<char>) -> bool {
    forall|i: int| 0 <= i < s.len() ==> is_space(#[trigger] s[i])
}

proof fn lemma_trim_start_skips(lead: Seq<char>, rest: Seq<char>)
    requires
        all_space(lead),
        rest.len() > 0,
        !is_space(rest[0]),
    ensures
        trim_start(lead + rest) == rest,
    decreases lead.len(),
{
    if lead.len() == 0 {
        assert(lead + rest =~= rest);
    } else {
        assert(is_space(lead[0]));
        assert((lead + rest).drop_first() =~= lead.drop_first() + rest);
        lemma_trim_start_skips(lead.drop_first(), rest);
    }
}

proof fn lemma_trim_end_skips(core: Seq<char>, trail: Seq<char>)
    requires
        all_space(trail),
        core.len() > 0,
        !is_space(core.last()),
    ensures
        trim_end(core + trail) == core,
    decreases trail.len(),
{
    if trail.len() == 0 {
        assert(core + trail =~= core);
    } else {
        assert(is_space(trail.last()));
        assert((core + trail).drop_last() =~= core + trail.drop_last());
        lemma_trim_end_skips(core, trail.drop_last());
    }
}

/// A decimal integer in the range of `isize`, with an optional sign and any
/// whitespace around it, reads as the integer that it denotes.
pub proof fn lemma_reads_decimal(
    lead: Seq<char>,
    sign: Seq<char>,
    digits: Seq<char>,
    trail: Seq<char>,
)
    requires
        all_space(lead),
        all_space(trail),
        sign == Seq::<char>::empty() || sign == seq!['+'] || sign == seq!['-'],
        digits.len() > 0,
        all_digits(digits),
        isize::MIN <= (if sign == seq!['-'] { -digits_value(digits) } else { digits_value(digits) })
            <= isize::MAX,
    ensures
        read_number(lead + sign + digits + trail) == Ok::<int, ParseErrorKind>(
            if sign == seq!['-'] {
                -digits_value(digits)
            } else {
                digits_value(digits)
            },
        ),
{
    let core = sign + digits;
    assert(is_digit(digits[0]));
    assert(is_digit(digits.last()));
    assert(core.last() == digits.last());
    assert(core[0] == if sign.len() == 0 { digits[0] } else { sign[0] });
    assert(lead + sign + digits + trail =~= lead + (core + trail));
    lemma_trim_start_skips(lead, core + trail);
    lemma_trim_end_skips(core, trail);
    assert(trim(lead + sign + digits + trail) == core);
    assert(unsigned_part(core) =~= digits);
    assert(is_negative(core) == (sign == seq!['-']));
    lemma_read_digits_exact(digits, is_negative(core));
}

/// The message for a failed line holds the line verbatim, right after the
/// opening quote.
pub proof fn lemma_message_holds_input(input: Seq<char>, kind: ParseErrorKind)
    ensures
        message(input, kind).subrange(
            message_head().len() as int,
            (message_head().len() + input.len()) as int,
        ) == input,
{
    let head = message_head();
    let m = message(input, kind);
    assert(m == head + input + ("\" to number: "@ + kind_text(kind)));
    assert(m.subrange(head.len() as int, (head.len() + input.len()) as int) =~= input);
}

/// The part of a trimmed text between its sign, if any, and position `i`.
pub open spec fn magnitude_before(t: Seq<char>, i: int) -> Seq<char> {
    t.subrange(if has_sign(t) { 1 } else { 0 }, i)
}

/// A line whose trimmed text holds a character that is neither a digit nor
/// a leading sign does not read as a number, and the message that reports it
/// holds the line verbatim. Where the digits before that character are in
/// range, the failure is an invalid digit.
pub proof fn lemma_stray_character(line: Seq<char>, i: int)
    requires
        0 <= i < trim(line).len(),
        !is_digit(trim(line)[i]),
        !(i == 0 && has_sign(trim(line))),
    ensures
        read_number(line) is Err,
        message(line, read_number(line)->Err_0).subrange(
            message_head().len() as int,
            (message_head().len() + line.len()) as int,
        ) == line,
        all_digits(magnitude_before(trim(line), i)) && digits_value(
            magnitude_before(trim(line), i),
        ) <= isize::MAX ==> read_number(line) == Err::<int, ParseErrorKind>(
            ParseErrorKind::InvalidDigit,
        ),
{
    let t = trim(line);
    let u = unsigned_part(t);
    let negative = is_negative(t);
    let j = if has_sign(t) { i - 1 } else { i };
    assert(u[j] == t[i]);
    assert(u.subrange(0, j) =~= magnitude_before(t, i));
    assert(u.subrange(0, j + 1).drop_last() =~= u.subrange(0, j));
    assert(u.subrange(0, j + 1).last() == t[i]);
    if all_digits(magnitude_before(t, i)) && digits_value(magnitude_before(t, i)) <= isize::MAX {
        lemma_read_digits_exact(u.subrange(0, j), negative);
    }
    lemma_read_digits_stops(u, negative, j + 1);
    lemma_message_holds_input(line, read_number(line)->Err_0);
}

} // verus!
