use vstd::prelude::*;

use crate::grouping::{grouped, groupify_integer, GroupDirection};

verus! {

/// Why a number could not be grouped.
#[derive(PartialEq, Eq, Structural, Clone, Copy, Debug)]
pub enum GroupError {
    /// A group size of zero was asked for.
    InvalidGroupSize,
    /// The number holds more than one `.`.
    MalformedNumber,
}

/// No two `.` in `s`.
pub open spec fn at_most_one_point(s: Seq<char>) -> bool {
    forall|i: int, j: int| 0 <= i < j < s.len() && #[trigger] s[i] == '.' ==> #[trigger] s[j] != '.'
}

/// Where the first `.` of `s` stands, or `s.len()` where there is none.
pub open spec fn point_index(s: Seq<char>) -> int {
    if exists|p: int| 0 <= p < s.len() && s[p] == '.' {
        choose|p: int|
            0 <= p < s.len() && s[p] == '.' && forall|i: int| 0 <= i < p ==> s[i] != '.'
    } else {
        s.len() as int
    }
}

/// The grouped form of `s`: its integer part grouped from the point leftward, then, where
/// `s` has a point, `mark` and the fractional part, grouped from the point rightward when
/// `frac` is set and untouched otherwise.
pub open spec fn compose(
    s: Seq<char>,
    mark: char,
    delim: char,
    first: nat,
    size: nat,
    frac: bool,
) -> Seq<char> {
    let p = point_index(s);
    let int_part = grouped(s.take(p), delim, first, size, GroupDirection::RightToLeft);
    if p < s.len() {
        let f = s.skip(p + 1);
        int_part + seq![mark] + if frac {
            grouped(f, delim, first, size, GroupDirection::LeftToRight)
        } else {
            f
        }
    } else {
        int_part
    }
}

/// Relies on `String::from_iter`: the string holds the characters in order.
#[verifier::external_body]
fn collect_chars(v: Vec<char>) -> (r: String)
    ensures
        r@ == v@,
{
    String::from_iter(v)
}

/// Groups a pre-rendered number `num`: `grouping_delimiter` goes between the groups of its
/// integer part (and of its fractional part when `group_fractional_part` is set), and
/// `decimal_mark` takes the place of its `.`.
pub fn custom_group(
    num: &str,
    decimal_mark: char,
    grouping_delimiter: char,
    first_group_size: usize,
    group_size: usize,
    group_fractional_part: bool,
) -> (r: Result<String, GroupError>)
    ensures
        first_group_size == 0 || group_size == 0 ==> r == Err::<String, GroupError>(
            GroupError::InvalidGroupSize,
        ),
        first_group_size > 0 && group_size > 0 && !at_most_one_point(num@) ==> r == Err::<
            String,
            GroupError,
        >(GroupError::MalformedNumber),
        first_group_size > 0 && group_size > 0 && at_most_one_point(num@) ==> r is Ok
            && r->Ok_0@ == compose(
            num@,
            decimal_mark,
            grouping_delimiter,
            first_group_size as nat,
            group_size as nat,
            group_fractional_part,
        ),
{
    if first_group_size == 0 || group_size == 0 {
        return Err(GroupError::InvalidGroupSize);
    }
    let ghost s = num@;
    let mut integer_digits: Vec<char> = Vec::new();
    let mut fractional_digits: Vec<char> = Vec::new();
    let mut seen_point = false;
    let mut malformed = false;
    let ghost mut p: int = 0;
    for c in it: num.chars()
        invariant
            it.seq() == s,
            s == num@,
            0 <= it.index() <= s.len(),
            !seen_point ==> integer_digits@ == s.take(it.index() as int) && fractional_digits@
                == Seq::<char>::empty() && !malformed && forall|i: int|
                0 <= i < it.index() ==> s[i] != '.',
            seen_point ==> 0 <= p < it.index() && s[p] == '.' && (forall|i: int|
                0 <= i < p ==> s[i] != '.') && integer_digits@ == s.take(p)
                && fractional_digits@ == s.subrange(p + 1, it.index() as int),
            seen_point ==> (malformed <==> exists|j: int| p < j < it.index() && s[j] == '.'),
    {
        proof {
            assert(s[it.index() as int] == c);
        }
        if c == '.' {
            if seen_point {
                malformed = true;
                fractional_digits.push(c);
            } else {
                seen_point = true;
                proof {
                    p = it.index() as int;
                }
            }
        } else if seen_point {
            fractional_digits.push(c);
        } else {
            integer_digits.push(c);
        }
    }
    if malformed {
        return Err(GroupError::MalformedNumber);
    }
    let mut out = groupify_integer(
        integer_digits.as_slice(),
        grouping_delimiter,
        first_group_size,
        group_size,
        GroupDirection::RightToLeft,
    );
    if seen_point {
        out.push(decimal_mark);
        if group_fractional_part {
            let mut tail = groupify_integer(
                fractional_digits.as_slice(),
                grouping_delimiter,
                first_group_size,
                group_size,
                GroupDirection::LeftToRight,
            );
            out.append(&mut tail);
        } else {
            out.append(&mut fractional_digits);
        }
    }
    Ok(collect_chars(out))
}

/// Preset groupings of a pre-rendered number.
pub trait FormatGroup {
    /// Groups of three on both sides of the point, separated by spaces (ISO 80000-1), with
    /// `decimal_mark` in place of the point.
    fn format_si(&self, decimal_mark: char) -> Result<String, GroupError>;

    /// Groups of three in the integer part, separated by commas.
    fn format_commas(&self) -> Result<String, GroupError>;

    /// Grouping with the given parameters, as `custom_group` does.
    fn format_custom(
        &self,
        decimal_mark: char,
        grouping_delimiter: char,
        first_group_size: usize,
        group_size: usize,
        group_fractional_part: bool,
    ) -> Result<String, GroupError>;
}

impl FormatGroup for str {
    fn format_si(&self, decimal_mark: char) -> (r: Result<String, GroupError>)
        ensures
            !at_most_one_point(self@) ==> r == Err::<String, GroupError>(
                GroupError::MalformedNumber,
            ),
            at_most_one_point(self@) ==> r is Ok && r->Ok_0@ == compose(
                self@,
                decimal_mark,
                ' ',
                3,
                3,
                true,
            ),
    {
        custom_group(self, decimal_mark, ' ', 3, 3, true)
    }

    fn format_commas(&self) -> (r: Result<String, GroupError>)
        ensures
            !at_most_one_point(self@) ==> r == Err::<String, GroupError>(
                GroupError::MalformedNumber,
            ),
            at_most_one_point(self@) ==> r is Ok && r->Ok_0@ == compose(
                self@,
                '.',
                ',',
                3,
                3,
                false,
            ),
    {
        custom_group(self, '.', ',', 3, 3, false)
    }

    fn format_custom(
        &self,
        decimal_mark: char,
        grouping_delimiter: char,
        first_group_size: usize,
        group_size: usize,
        group_fractional_part: bool,
    ) -> (r: Result<String, GroupError>)
        ensures
            first_group_size == 0 || group_size == 0 ==> r == Err::<String, GroupError>(
                GroupError::InvalidGroupSize,
            ),
            first_group_size > 0 && group_size > 0 && !at_most_one_point(self@) ==> r == Err::<
                String,
                GroupError,
            >(GroupError::MalformedNumber),
            first_group_size > 0 && group_size > 0 && at_most_one_point(self@) ==> r is Ok
                && r->Ok_0@ == compose(
                self@,
                decimal_mark,
                grouping_delimiter,
                first_group_size as nat,
                group_size as nat,
                group_fractional_part,
            ),
    {
        custom_group(
            self,
            decimal_mark,
            grouping_delimiter,
            first_group_size,
            group_size,
            group_fractional_part,
        )
    }
}

} // verus!
