use vstd::prelude::*;

verus! {

/// Whether the digit at distance `k` from the decimal point (0 is the digit next to it)
/// opens a new group, so that a delimiter stands between it and the point.
pub open spec fn starts_group(k: int, first: nat, size: nat) -> bool {
    first <= k && (k - first) % (size as int) == 0
}

/// Integer digits in reading order; the last digit is the one next to the point.
pub open spec fn group_toward_point(d: Seq<char>, delim: char, first: nat, size: nat) -> Seq<char>
    decreases d.len(),
{
    if d.len() == 0 {
        seq![]
    } else {
        let head = if starts_group(d.len() - 1, first, size) {
            seq![d[0], delim]
        } else {
            seq![d[0]]
        };
        head + group_toward_point(d.drop_first(), delim, first, size)
    }
}

/// Fractional digits in reading order; the first digit is the one next to the point.
pub open spec fn group_away_from_point(d: Seq<char>, delim: char, first: nat, size: nat) -> Seq<
    char,
>
    decreases d.len(),
{
    if d.len() == 0 {
        seq![]
    } else {
        let tail = if starts_group(d.len() - 1, first, size) {
            seq![delim, d.last()]
        } else {
            seq![d.last()]
        };
        group_away_from_point(d.drop_last(), delim, first, size) + tail
    }
}

/// Which way groups are counted: from the point leftward (the integer part) or from the
/// point rightward (the fractional part).
#[derive(PartialEq, Eq, Structural, Clone, Copy, Debug)]
pub enum GroupDirection {
    RightToLeft,
    LeftToRight,
}

/// The digits grouped in the given direction, a leading minus sign kept in front.
pub open spec fn grouped(
    s: Seq<char>,
    delim: char,
    first: nat,
    size: nat,
    direction: GroupDirection,
) -> Seq<char> {
    let neg = s.len() > 0 && s[0] == '-';
    let sign: Seq<char> = if neg { seq!['-'] } else { seq![] };
    let body = if neg { s.drop_first() } else { s };
    sign + match direction {
        GroupDirection::RightToLeft => group_toward_point(body, delim, first, size),
        GroupDirection::LeftToRight => group_away_from_point(body, delim, first, size),
    }
}

fn opens_group(k: usize, first: usize, size: usize) -> (r: bool)
    requires
        size > 0,
    ensures
        r == starts_group(k as int, first as nat, size as nat),
{
    k >= first && (k - first) % size == 0
}

/// Inserts `delimiter` between the groups of `integral_digits`. A leading `-` is kept
/// in front and never counted as a digit.
pub fn groupify_integer(
    integral_digits: &[char],
    delimiter: char,
    first_group_size: usize,
    group_size: usize,
    direction: GroupDirection,
) -> (r: Vec<char>)
    requires
        group_size > 0,
    ensures
        r@ == grouped(
            integral_digits@,
            delimiter,
            first_group_size as nat,
            group_size as nat,
            direction,
        ),
{
    let len = integral_digits.len();
    let is_negative = len > 0 && integral_digits[0] == '-';
    let skip: usize = if is_negative { 1 } else { 0 };
    let ghost s = integral_digits@;
    let ghost body = if is_negative { s.drop_first() } else { s };
    let ghost sign: Seq<char> = if is_negative { seq!['-'] } else { seq![] };
    let n: usize = len - skip;
    assert(body =~= s.skip(skip as int));
    let mut out: Vec<char> = Vec::new();
    if is_negative {
        out.push('-');
    }
    let ghost fst = first_group_size as nat;
    let ghost sz = group_size as nat;
    assert(out@ =~= sign);
    match direction {
        GroupDirection::RightToLeft => {
            let mut j: usize = 0;
            assert(body.skip(0) =~= body);
            while j < n
                invariant
                    n == body.len(),
                    len == s.len(),
                    skip + n == len,
                    s == integral_digits@,
                    body =~= s.skip(skip as int),
                    group_size > 0,
                    fst == first_group_size as nat,
                    sz == group_size as nat,
                    j <= n,
                    out@ + group_toward_point(body.skip(j as int), delimiter, fst, sz)
                        =~= sign + group_toward_point(body, delimiter, fst, sz),
                decreases n - j,
            {
                let c = integral_digits[skip + j];
                let k = n - 1 - j;
                let ghost rest = body.skip(j as int);
                assert(rest.drop_first() =~= body.skip(j + 1));
                assert(rest[0] == c);
                assert(rest.len() - 1 == k as int);
                let ghost before = out@;
                let ghost head = if starts_group(k as int, fst, sz) {
                    seq![c, delimiter]
                } else {
                    seq![c]
                };
                assert(group_toward_point(rest, delimiter, fst, sz) == head + group_toward_point(
                    body.skip(j + 1),
                    delimiter,
                    fst,
                    sz,
                ));
                out.push(c);
                if opens_group(k, first_group_size, group_size) {
                    out.push(delimiter);
                    assert(out@ =~= before + head);
                } else {
                    assert(out@ =~= before + head);
                }
                assert(out@ + group_toward_point(body.skip(j + 1), delimiter, fst, sz) =~= before
                    + group_toward_point(rest, delimiter, fst, sz));
                j = j + 1;
            }
            assert(body.skip(n as int) =~= Seq::<char>::empty());
        },
        GroupDirection::LeftToRight => {
            let mut j: usize = 0;
            assert(body.take(0) =~= Seq::<char>::empty());
            while j < n
                invariant
                    n == body.len(),
                    len == s.len(),
                    skip + n == len,
                    s == integral_digits@,
                    body =~= s.skip(skip as int),
                    group_size > 0,
                    fst == first_group_size as nat,
                    sz == group_size as nat,
                    j <= n,
                    out@ =~= sign + group_away_from_point(body.take(j as int), delimiter, fst, sz),
                decreases n - j,
            {
                let c = integral_digits[skip + j];
                let ghost pre = body.take(j + 1);
                assert(pre.drop_last() =~= body.take(j as int));
                assert(pre.last() == c);
                let ghost before = out@;
                let ghost tail = if starts_group(j as int, fst, sz) {
                    seq![delimiter, c]
                } else {
                    seq![c]
                };
                assert(group_away_from_point(pre, delimiter, fst, sz) == group_away_from_point(
                    body.take(j as int),
                    delimiter,
                    fst,
                    sz,
                ) + tail);
                if opens_group(j, first_group_size, group_size) {
                    out.push(delimiter);
                    out.push(c);
                    assert(out@ =~= before + tail);
                } else {
                    out.push(c);
                    assert(out@ =~= before + tail);
                }
                j = j + 1;
            }
            assert(body.take(n as int) =~= body);
        },
    }
    out
}

} // verus!
