use vstd::prelude::*;

use crate::compose::{at_most_one_point, compose, point_index};
use crate::grouping::{group_away_from_point, group_toward_point, grouped, starts_group, GroupDirection};

verus! {

proof fn lemma_opens_shift(m: int, first: nat, size: nat)
    requires
        size > 0,
        m > 0,
    ensures
        starts_group(m + first, first, size) == starts_group(m, size, size),
{
    assert((m - size) % (size as int) == m % (size as int)) by {
        vstd::arithmetic::div_mod::lemma_mod_sub_multiples_vanish(m, size as int);
    }
    if m < size {
        vstd::arithmetic::div_mod::lemma_small_mod(m as nat, size);
    }
}

/// An integer part of at most `first` digits is one group: no delimiter is put in.
pub proof fn lemma_short_integer_is_one_group(d: Seq<char>, delim: char, first: nat, size: nat)
    requires
        d.len() <= first,
    ensures
        group_toward_point(d, delim, first, size) == d,
    decreases d.len(),
{
    if d.len() > 0 {
        lemma_short_integer_is_one_group(d.drop_first(), delim, first, size);
        assert(d =~= seq![d[0]] + d.drop_first());
    }
}

/// An integer part of more than `first` digits ends in a delimiter and exactly `first`
/// digits; what stands before is grouped by `size` alone, so that every further group has
/// `size` digits but the leading one, which has from 1 to `size`.
pub proof fn lemma_integer_groups(d: Seq<char>, delim: char, first: nat, size: nat)
    requires
        size > 0,
        d.len() > first,
    ensures
        group_toward_point(d, delim, first, size) == group_toward_point(
            d.take(d.len() - first),
            delim,
            size,
            size,
        ) + seq![delim] + d.skip(d.len() - first),
    decreases d.len(),
{
    let n = d.len() as int;
    let tail = d.drop_first();
    let lhs = group_toward_point(d, delim, first, size);
    let front = d.take(n - first);
    let rhs = group_toward_point(front, delim, size, size) + seq![delim] + d.skip(n - first);
    if n == first + 1 {
        lemma_short_integer_is_one_group(tail, delim, first, size);
        assert(0int % (size as int) == 0) by {
            vstd::arithmetic::div_mod::lemma_small_mod(0, size);
        }
        assert(starts_group(first as int, first, size));
        assert(lhs == seq![d[0], delim] + tail);
        assert(front.drop_first() =~= Seq::<char>::empty());
        assert(group_toward_point(front, delim, size, size) == seq![d[0]] + group_toward_point(
            front.drop_first(),
            delim,
            size,
            size,
        ));
        assert(tail =~= d.skip(1));
        assert(lhs =~= rhs);
    } else {
        let m = n - 1 - first;
        lemma_integer_groups(tail, delim, first, size);
        lemma_opens_shift(m, first, size);
        let head = if starts_group(n - 1, first, size) {
            seq![d[0], delim]
        } else {
            seq![d[0]]
        };
        assert(front.drop_first() =~= tail.take(m));
        assert(tail.skip(m) =~= d.skip(n - first));
        assert(lhs == head + group_toward_point(tail, delim, first, size));
        assert(group_toward_point(front, delim, size, size) == head + group_toward_point(
            front.drop_first(),
            delim,
            size,
            size,
        ));
        assert(lhs =~= rhs);
    }
}

/// A fractional part of at most `first` digits is one group: no delimiter is put in.
pub proof fn lemma_short_fraction_is_one_group(d: Seq<char>, delim: char, first: nat, size: nat)
    requires
        d.len() <= first,
    ensures
        group_away_from_point(d, delim, first, size) == d,
    decreases d.len(),
{
    if d.len() > 0 {
        lemma_short_fraction_is_one_group(d.drop_last(), delim, first, size);
        assert(d =~= d.drop_last() + seq![d.last()]);
    }
}

/// A fractional part of more than `first` digits opens with exactly `first` digits and a
/// delimiter; what follows is grouped by `size` alone, so that every further group has
/// `size` digits but the trailing one, which has from 1 to `size`.
pub proof fn lemma_fraction_groups(d: Seq<char>, delim: char, first: nat, size: nat)
    requires
        size > 0,
        d.len() > first,
    ensures
        group_away_from_point(d, delim, first, size) == d.take(first as int) + seq![delim]
            + group_away_from_point(d.skip(first as int), delim, size, size),
    decreases d.len(),
{
    let n = d.len() as int;
    let init = d.drop_last();
    let lhs = group_away_from_point(d, delim, first, size);
    let back = d.skip(first as int);
    let rhs = d.take(first as int) + seq![delim] + group_away_from_point(back, delim, size, size);
    if n == first + 1 {
        lemma_short_fraction_is_one_group(init, delim, first, size);
        assert(0int % (size as int) == 0) by {
            vstd::arithmetic::div_mod::lemma_small_mod(0, size);
        }
        assert(starts_group(first as int, first, size));
        assert(lhs == init + seq![delim, d.last()]);
        assert(back.drop_last() =~= Seq::<char>::empty());
        assert(group_away_from_point(back, delim, size, size) == group_away_from_point(
            back.drop_last(),
            delim,
            size,
            size,
        ) + seq![back.last()]);
        assert(init =~= d.take(first as int));
        assert(lhs =~= rhs);
    } else {
        let m = n - 1 - first;
        lemma_fraction_groups(init, delim, first, size);
        lemma_opens_shift(m, first, size);
        let tail = if starts_group(n - 1, first, size) {
            seq![delim, d.last()]
        } else {
            seq![d.last()]
        };
        assert(back.drop_last() =~= init.skip(first as int));
        assert(init.take(first as int) =~= d.take(first as int));
        assert(back.last() == d.last());
        assert(lhs == group_away_from_point(init, delim, first, size) + tail);
        assert(group_away_from_point(back, delim, size, size) == group_away_from_point(
            back.drop_last(),
            delim,
            size,
            size,
        ) + tail);
        assert(lhs =~= rhs);
    }
}

/// `o` with every `delim` taken out and every `mark` turned back into `.`.
pub open spec fn restore(o: Seq<char>, mark: char, delim: char) -> Seq<char>
    decreases o.len(),
{
    if o.len() == 0 {
        seq![]
    } else {
        let c = o.last();
        restore(o.drop_last(), mark, delim) + if c == delim {
            seq![]
        } else if c == mark {
            seq!['.']
        } else {
            seq![c]
        }
    }
}

/// Characters that grouping with `mark` and `delim` leaves as they are.
pub open spec fn plain_chars(d: Seq<char>, mark: char, delim: char) -> bool {
    forall|i: int| 0 <= i < d.len() ==> #[trigger] d[i] != delim && d[i] != mark
}

proof fn lemma_restore_concat(a: Seq<char>, b: Seq<char>, mark: char, delim: char)
    ensures
        restore(a + b, mark, delim) == restore(a, mark, delim) + restore(b, mark, delim),
    decreases b.len(),
{
    if b.len() == 0 {
        assert(a + b =~= a);
    } else {
        lemma_restore_concat(a, b.drop_last(), mark, delim);
        assert((a + b).drop_last() =~= a + b.drop_last());
        assert((a + b).last() == b.last());
    }
}

proof fn lemma_restore_one(c: char, mark: char, delim: char)
    ensures
        restore(seq![c], mark, delim) == if c == delim {
            seq![]
        } else if c == mark {
            seq!['.']
        } else {
            seq![c]
        },
{
    assert(seq![c].drop_last() =~= Seq::<char>::empty());
    assert(restore(Seq::<char>::empty(), mark, delim) == Seq::<char>::empty());
    assert(Seq::<char>::empty() + seq!['.'] =~= seq!['.']);
    assert(Seq::<char>::empty() + seq![c] =~= seq![c]);
    assert(Seq::<char>::empty() + Seq::<char>::empty() =~= Seq::<char>::empty());
}

proof fn lemma_restore_plain(d: Seq<char>, mark: char, delim: char)
    requires
        plain_chars(d, mark, delim),
    ensures
        restore(d, mark, delim) == d,
    decreases d.len(),
{
    if d.len() > 0 {
        lemma_restore_plain(d.drop_last(), mark, delim);
        assert(d.drop_last() + seq![d.last()] =~= d);
    }
}

proof fn lemma_restore_toward(d: Seq<char>, mark: char, delim: char, first: nat, size: nat)
    requires
        plain_chars(d, mark, delim),
    ensures
        restore(group_toward_point(d, delim, first, size), mark, delim) == d,
    decreases d.len(),
{
    if d.len() > 0 {
        let rest = d.drop_first();
        lemma_restore_toward(rest, mark, delim, first, size);
        let head = if starts_group(d.len() - 1, first, size) {
            seq![d[0], delim]
        } else {
            seq![d[0]]
        };
        lemma_restore_concat(head, group_toward_point(rest, delim, first, size), mark, delim);
        assert(d[0] != delim && d[0] != mark);
        lemma_restore_one(d[0], mark, delim);
        lemma_restore_one(delim, mark, delim);
        lemma_restore_concat(seq![d[0]], seq![delim], mark, delim);
        assert(seq![d[0]] + seq![delim] =~= seq![d[0], delim]);
        assert(seq![d[0]] + Seq::<char>::empty() =~= seq![d[0]]);
        assert(restore(head, mark, delim) == seq![d[0]]);
        assert(seq![d[0]] + rest =~= d);
    }
}

proof fn lemma_restore_away(d: Seq<char>, mark: char, delim: char, first: nat, size: nat)
    requires
        plain_chars(d, mark, delim),
    ensures
        restore(group_away_from_point(d, delim, first, size), mark, delim) == d,
    decreases d.len(),
{
    if d.len() > 0 {
        let init = d.drop_last();
        lemma_restore_away(init, mark, delim, first, size);
        let c = d.last();
        let tail = if starts_group(d.len() - 1, first, size) {
            seq![delim, c]
        } else {
            seq![c]
        };
        lemma_restore_concat(group_away_from_point(init, delim, first, size), tail, mark, delim);
        assert(d[d.len() - 1] != delim && d[d.len() - 1] != mark);
        lemma_restore_one(c, mark, delim);
        lemma_restore_one(delim, mark, delim);
        lemma_restore_concat(seq![delim], seq![c], mark, delim);
        assert(seq![delim] + seq![c] =~= seq![delim, c]);
        assert(Seq::<char>::empty() + seq![c] =~= seq![c]);
        assert(restore(tail, mark, delim) == seq![c]);
        assert(init + seq![c] =~= d);
    }
}

proof fn lemma_restore_grouped(
    d: Seq<char>,
    mark: char,
    delim: char,
    first: nat,
    size: nat,
    direction: GroupDirection,
)
    requires
        plain_chars(d, mark, delim),
        mark != '-',
        delim != '-',
    ensures
        restore(grouped(d, delim, first, size, direction), mark, delim) == d,
{
    let neg = d.len() > 0 && d[0] == '-';
    let sign: Seq<char> = if neg { seq!['-'] } else { seq![] };
    let body = if neg { d.drop_first() } else { d };
    let g = match direction {
        GroupDirection::RightToLeft => group_toward_point(body, delim, first, size),
        GroupDirection::LeftToRight => group_away_from_point(body, delim, first, size),
    };
    match direction {
        GroupDirection::RightToLeft => lemma_restore_toward(body, mark, delim, first, size),
        GroupDirection::LeftToRight => lemma_restore_away(body, mark, delim, first, size),
    }
    lemma_restore_concat(sign, g, mark, delim);
    lemma_restore_plain(sign, mark, delim);
    assert(sign + body =~= d);
}

/// Grouping loses nothing: where the number holds neither the delimiter nor the mark (but
/// for its own `.`), and the two differ and are not `-`, taking every delimiter out of the
/// grouped form and turning the mark back into `.` gives back the number.
pub proof fn lemma_round_trip(
    s: Seq<char>,
    mark: char,
    delim: char,
    first: nat,
    size: nat,
    frac: bool,
)
    requires
        at_most_one_point(s),
        mark != delim,
        mark != '-',
        delim != '-',
        forall|i: int| 0 <= i < s.len() ==> #[trigger] s[i] != delim && (s[i] == mark ==> s[i] == '.'),
    ensures
        restore(compose(s, mark, delim, first, size, frac), mark, delim) == s,
{
    lemma_point_index(s);
    let p = point_index(s);
    let ip = s.take(p);
    assert(plain_chars(ip, mark, delim));
    lemma_restore_grouped(ip, mark, delim, first, size, GroupDirection::RightToLeft);
    let gi = grouped(ip, delim, first, size, GroupDirection::RightToLeft);
    if p < s.len() {
        let f = s.skip(p + 1);
        assert forall|i: int| 0 <= i < f.len() implies #[trigger] f[i] != delim && f[i] != mark by {
            assert(f[i] == s[p + 1 + i]);
        }
        lemma_restore_grouped(f, mark, delim, first, size, GroupDirection::LeftToRight);
        lemma_restore_plain(f, mark, delim);
        let tail = if frac { grouped(f, delim, first, size, GroupDirection::LeftToRight) } else { f };
        lemma_restore_concat(gi, seq![mark], mark, delim);
        lemma_restore_concat(gi + seq![mark], tail, mark, delim);
        lemma_restore_one(mark, mark, delim);
        assert(ip + seq!['.'] + f =~= s);
    } else {
        assert(ip =~= s);
    }
}

proof fn lemma_toward_keeps_out(d: Seq<char>, delim: char, first: nat, size: nat, c: char)
    requires
        delim != c,
        forall|j: int| 0 <= j < d.len() ==> d[j] != c,
    ensures
        forall|i: int|
            0 <= i < group_toward_point(d, delim, first, size).len() ==> group_toward_point(
                d,
                delim,
                first,
                size,
            )[i] != c,
    decreases d.len(),
{
    if d.len() > 0 {
        let rest = d.drop_first();
        lemma_toward_keeps_out(rest, delim, first, size, c);
        let g = group_toward_point(rest, delim, first, size);
        let head = if starts_group(d.len() - 1, first, size) {
            seq![d[0], delim]
        } else {
            seq![d[0]]
        };
        let out = group_toward_point(d, delim, first, size);
        assert(out == head + g);
        assert forall|i: int| 0 <= i < out.len() implies out[i] != c by {
            if i >= head.len() {
                assert(out[i] == g[i - head.len()]);
            }
        }
    }
}

proof fn lemma_away_keeps_out(d: Seq<char>, delim: char, first: nat, size: nat, c: char)
    requires
        delim != c,
        forall|j: int| 0 <= j < d.len() ==> d[j] != c,
    ensures
        forall|i: int|
            0 <= i < group_away_from_point(d, delim, first, size).len() ==> group_away_from_point(
                d,
                delim,
                first,
                size,
            )[i] != c,
    decreases d.len(),
{
    if d.len() > 0 {
        let init = d.drop_last();
        lemma_away_keeps_out(init, delim, first, size, c);
        let g = group_away_from_point(init, delim, first, size);
        let tail = if starts_group(d.len() - 1, first, size) {
            seq![delim, d.last()]
        } else {
            seq![d.last()]
        };
        let out = group_away_from_point(d, delim, first, size);
        assert(out == g + tail);
        assert forall|i: int| 0 <= i < out.len() implies out[i] != c by {
            if i >= g.len() {
                assert(out[i] == tail[i - g.len()]);
            }
        }
    }
}

proof fn lemma_point_index(s: Seq<char>)
    requires
        at_most_one_point(s),
    ensures
        0 <= point_index(s) <= s.len(),
        forall|i: int| 0 <= i < point_index(s) ==> s[i] != '.',
        point_index(s) < s.len() ==> s[point_index(s)] == '.',
{
    if exists|p: int| 0 <= p < s.len() && s[p] == '.' {
        let p = choose|p: int| 0 <= p < s.len() && s[p] == '.';
        assert forall|i: int| 0 <= i < p implies s[i] != '.' by {
            if s[i] == '.' {
                assert(s[p] != '.');
            }
        }
    }
}

/// Where the integer part fits in the first group and the fractional part is left alone,
/// grouping with `.` as the mark gives back the number as it was.
pub proof fn lemma_fitting_number_unchanged(s: Seq<char>, delim: char, first: nat, size: nat)
    requires
        at_most_one_point(s),
        point_index(s) <= first,
    ensures
        compose(s, '.', delim, first, size, false) == s,
{
    lemma_point_index(s);
    let p = point_index(s);
    let ip = s.take(p);
    let neg = ip.len() > 0 && ip[0] == '-';
    let body = if neg { ip.drop_first() } else { ip };
    lemma_short_integer_is_one_group(body, delim, first, size);
    let sign: Seq<char> = if neg { seq!['-'] } else { seq![] };
    assert(sign + body =~= ip);
    if p < s.len() {
        assert(ip + seq!['.'] + s.skip(p + 1) =~= s);
    } else {
        assert(ip =~= s);
    }
}

/// A negative number keeps its minus sign once, in front: where `s` starts with `-` and
/// holds no other, and neither the mark nor the delimiter is `-`, the grouped form starts
/// with `-` and holds no other.
pub proof fn lemma_sign_in_front(
    s: Seq<char>,
    mark: char,
    delim: char,
    first: nat,
    size: nat,
    frac: bool,
)
    requires
        at_most_one_point(s),
        s.len() > 0,
        s[0] == '-',
        forall|i: int| 0 < i < s.len() ==> s[i] != '-',
        mark != '-',
        delim != '-',
    ensures
        compose(s, mark, delim, first, size, frac).len() > 0,
        compose(s, mark, delim, first, size, frac)[0] == '-',
        forall|i: int|
            0 < i < compose(s, mark, delim, first, size, frac).len() ==> compose(
                s,
                mark,
                delim,
                first,
                size,
                frac,
            )[i] != '-',
{
    lemma_point_index(s);
    let p = point_index(s);
    let ip = s.take(p);
    let body = ip.drop_first();
    lemma_toward_keeps_out(body, delim, first, size, '-');
    let gi = group_toward_point(body, delim, first, size);
    assert(grouped(ip, delim, first, size, GroupDirection::RightToLeft) == seq!['-'] + gi);
    let r = compose(s, mark, delim, first, size, frac);
    if p < s.len() {
        let f = s.skip(p + 1);
        lemma_away_keeps_out(f, delim, first, size, '-');
        let gf = grouped(f, delim, first, size, GroupDirection::LeftToRight);
        if f.len() > 0 {
            assert(f[0] != '-');
        }
        assert(gf == seq![] + group_away_from_point(f, delim, first, size));
        let tail = if frac { gf } else { f };
        assert(r == seq!['-'] + gi + seq![mark] + tail);
        assert forall|i: int| 0 < i < r.len() implies r[i] != '-' by {
            if i <= gi.len() {
                assert(r[i] == gi[i - 1]);
            } else if i == gi.len() + 1 {
                assert(r[i] == mark);
            } else {
                assert(r[i] == tail[i - gi.len() - 2]);
            }
        }
    } else {
        assert forall|i: int| 0 < i < r.len() implies r[i] != '-' by {
            assert(r[i] == gi[i - 1]);
        }
    }
}

} // verus!
