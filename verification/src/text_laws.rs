//! What rendering and searching text come down to.

use vstd::prelude::*;

use crate::text::{
    contains_text, count_starting_with, decimal, digit, in_order, joined, lemma_sorted, line_end,
    lines, signed_decimal, sorted, starts_with, text_le, without_repeats,
};

verus! {

/// The number that decimal digits stand for.
pub open spec fn value(digits: Seq<char>) -> int
    decreases digits.len(),
{
    if digits.len() == 0 {
        0
    } else {
        10 * value(digits.drop_last()) + (digits.last() as int - '0' as int)
    }
}

proof fn lemma_digit(d: nat)
    requires
        d < 10,
    ensures
        digit(d).len() == 1,
        digit(d)[0] as int == '0' as int + d,
{
    reveal_strlit("0");
    reveal_strlit("1");
    reveal_strlit("2");
    reveal_strlit("3");
    reveal_strlit("4");
    reveal_strlit("5");
    reveal_strlit("6");
    reveal_strlit("7");
    reveal_strlit("8");
    reveal_strlit("9");
}

/// A number in decimal is made of digits, stands for that number, and does not start with a zero
/// unless it is one.
pub proof fn lemma_decimal(n: nat)
    ensures
        decimal(n).len() > 0,
        value(decimal(n)) == n,
        forall|i: int|
            0 <= i < decimal(n).len() ==> '0' as int <= #[trigger] decimal(n)[i] as int
                <= '9' as int,
        decimal(n)[0] == '0' ==> n == 0 && decimal(n).len() == 1,
    decreases n,
{
    if n < 10 {
        lemma_digit(n);
        assert(decimal(n).drop_last() =~= seq![]);
        assert(value(decimal(n).drop_last()) == 0);
    } else {
        let front = decimal(n / 10);
        let last = digit(n % 10);
        lemma_decimal(n / 10);
        lemma_digit(n % 10);
        assert((front + last).drop_last() =~= front);
        assert((front + last).last() == last[0]);
        assert(decimal(n)[0] == front[0]);
    }
}

/// An integer in decimal is the number without its sign, after a minus sign if it is negative.
pub proof fn lemma_signed_decimal(n: int)
    ensures
        n >= 0 ==> value(signed_decimal(n)) == n && signed_decimal(n)[0] != '-',
        n < 0 ==> signed_decimal(n)[0] == '-' && value(signed_decimal(n).skip(1)) == -n,
        signed_decimal(n).len() > 0,
{
    reveal_strlit("-");
    if n < 0 {
        lemma_decimal((-n) as nat);
        assert(signed_decimal(n).skip(1) =~= decimal((-n) as nat));
    } else {
        lemma_decimal(n as nat);
        let first = decimal(n as nat)[0];
        assert('0' as int <= first as int);
    }
}

/// Joining puts the separator between neighbours and nowhere else: the join of two runs of parts
/// is the one, the separator and the other; of one part it is that part.
pub proof fn lemma_joined(x: Seq<Seq<char>>, y: Seq<Seq<char>>, separator: Seq<char>)
    ensures
        x.len() > 0 && y.len() > 0 ==> joined(x + y, separator) == joined(x, separator) + separator
            + joined(y, separator),
        x.len() == 1 ==> joined(x, separator) == x[0],
        x.len() == 0 ==> joined(x, separator).len() == 0,
    decreases y.len(),
{
    if x.len() > 0 && y.len() > 0 {
        let all = x + y;
        assert(all.last() == y.last());
        if y.len() == 1 {
            assert(all.drop_last() =~= x);
        } else {
            assert(all.drop_last() =~= x + y.drop_last());
            lemma_joined(x, y.drop_last(), separator);
            assert(joined(all, separator) =~= joined(x, separator) + separator + joined(
                y,
                separator,
            ));
        }
    }
}

/// A text starts with a prefix exactly if it is the prefix with something after it.
pub proof fn lemma_starts_with(text: Seq<char>, prefix: Seq<char>)
    ensures
        starts_with(text, prefix) <==> exists|rest: Seq<char>| text == #[trigger] (prefix + rest),
{
    if starts_with(text, prefix) {
        assert(text =~= prefix + text.skip(prefix.len() as int));
    }
    assert forall|rest: Seq<char>| text == #[trigger] (prefix + rest) implies starts_with(
        text,
        prefix,
    ) by {
        assert(text.take(prefix.len() as int) =~= prefix);
    }
}

/// A text contains a part exactly if it is the part with something before it and something after
/// it.
pub proof fn lemma_contains_text(text: Seq<char>, part: Seq<char>)
    ensures
        contains_text(text, part) <==> exists|before: Seq<char>, after: Seq<char>|
            text == #[trigger] (before + part + after),
{
    if contains_text(text, part) {
        let i = choose|i: int| 0 <= i <= text.len() && starts_with(#[trigger] text.skip(i), part);
        lemma_starts_with(text.skip(i), part);
        let after = choose|after: Seq<char>| text.skip(i) == #[trigger] (part + after);
        assert(text =~= text.take(i) + text.skip(i));
        assert(text =~= text.take(i) + part + after);
    }
    assert forall|before: Seq<char>, after: Seq<char>|
        text == #[trigger] (before + part + after) implies contains_text(text, part) by {
        let i = before.len() as int;
        assert(text.skip(i) =~= part + after);
        lemma_starts_with(text.skip(i), part);
        assert(starts_with(text.skip(i), part));
    }
}

/// How many texts start with a prefix: as many as are left when the others are left out.
pub proof fn lemma_count_starting_with(parts: Seq<Seq<char>>, prefix: Seq<char>)
    ensures
        count_starting_with(parts, prefix) == parts.filter(
            |part: Seq<char>|
                part.len() >= prefix.len() && part.take(prefix.len() as int) == prefix,
        ).len(),
    decreases parts.len(),
{
    let kept = |part: Seq<char>|
        part.len() >= prefix.len() && part.take(prefix.len() as int) == prefix;
    if parts.len() > 0 {
        lemma_count_starting_with(parts.skip(1), prefix);
        let first = seq![parts[0]];
        assert(parts =~= first + parts.skip(1));
        Seq::filter_distributes_over_add(first, parts.skip(1), kept);
        reveal(Seq::filter);
        assert(first.drop_last() =~= seq![]);
        assert(first.drop_last().filter(kept) =~= seq![]);
        assert(first.filter(kept).len() == if kept(parts[0]) {
            1nat
        } else {
            0
        });
    } else {
        reveal(Seq::filter);
    }
}

/// The order of texts: one comes before another, or is the same, exactly if it is the start of
/// the other, or has the smaller character where the two first differ.
pub proof fn lemma_text_order(a: Seq<char>, b: Seq<char>)
    ensures
        text_le(a, b) <==> a.is_prefix_of(b) || exists|k: int|
            0 <= k < a.len() && k < b.len() && a.take(k) == b.take(k) && #[trigger] a[k]
                < #[trigger] b[k],
    decreases a.len(),
{
    if a.len() == 0 {
        assert(b.take(0) =~= a);
    } else if b.len() > 0 && a[0] == b[0] {
        let (x, y) = (a.skip(1), b.skip(1));
        lemma_text_order(x, y);
        if x.is_prefix_of(y) {
            assert(b.take(a.len() as int) =~= seq![b[0]] + y.take(x.len() as int));
            assert(a =~= seq![a[0]] + x);
        } else if text_le(a, b) {
            let k = choose|k: int|
                0 <= k < x.len() && k < y.len() && x.take(k) == y.take(k) && #[trigger] x[k]
                    < #[trigger] y[k];
            assert(a.take(k + 1) =~= seq![a[0]] + x.take(k));
            assert(b.take(k + 1) =~= seq![b[0]] + y.take(k));
            assert(a[k + 1] < b[k + 1]);
        }
        if a.is_prefix_of(b) {
            assert(b.take(a.len() as int) =~= a);
            assert(y.take(x.len() as int) =~= x) by {
                assert forall|i: int| 0 <= i < x.len() implies y.take(x.len() as int)[i]
                    == x[i] by {
                    assert(b.take(a.len() as int)[i + 1] == a[i + 1]);
                }
            }
            assert(x.is_prefix_of(y));
        }
        assert forall|k: int|
            0 <= k < a.len() && k < b.len() && a.take(k) == b.take(k) && #[trigger] a[k]
                < #[trigger] b[k] implies text_le(a, b) by {
            assert(k > 0);
            let j = k - 1;
            assert(x.take(j) =~= y.take(j)) by {
                assert forall|i: int| 0 <= i < j implies x.take(j)[i] == y.take(j)[i] by {
                    assert(a.take(k)[i + 1] == b.take(k)[i + 1]);
                }
            }
            assert(x[j] < y[j]);
        }
    } else if b.len() > 0 {
        assert(a.take(0) =~= b.take(0));
        if a.is_prefix_of(b) {
            assert(b.take(a.len() as int)[0] == a[0]);
        }
        assert forall|k: int|
            0 <= k < a.len() && k < b.len() && a.take(k) == b.take(k) && #[trigger] a[k]
                < #[trigger] b[k] implies a[0] < b[0] by {
            if k > 0 {
                assert(a.take(k)[0] == b.take(k)[0]);
            }
        }
    }
}

/// A run of the same text is taken once: what is kept are the texts that differ from the one
/// before them, in order.
pub proof fn lemma_without_repeats(parts: Seq<Seq<char>>)
    ensures
        without_repeats(parts) == Seq::new(parts.len(), |i: int| i).filter(
            |i: int| i == 0 || parts[i] != parts[i - 1],
        ).map_values(|i: int| parts[i]),
        forall|part: Seq<char>| #[trigger]
            without_repeats(parts).contains(part) <==> parts.contains(part),
        forall|i: int|
            0 < i < without_repeats(parts).len() ==> without_repeats(parts)[i - 1]
                != #[trigger] without_repeats(parts)[i],
        parts.len() > 0 ==> without_repeats(parts).len() > 0 && without_repeats(parts).last()
            == parts.last(),
    decreases parts.len(),
{
    let kept = |i: int| i == 0 || parts[i] != parts[i - 1];
    let at = |i: int| parts[i];
    let all = Seq::new(parts.len(), |i: int| i);
    reveal(Seq::filter);
    if parts.len() > 0 {
        let rest = parts.drop_last();
        let last = parts.len() - 1;
        lemma_without_repeats(rest);
        let fewer = Seq::new(rest.len(), |i: int| i);
        let kept_before = |i: int| i == 0 || rest[i] != rest[i - 1];
        let at_before = |i: int| rest[i];
        assert(all.drop_last() =~= fewer);
        lemma_filter_below(fewer, kept_before, kept, last as int);
        lemma_filter_below(fewer, kept, kept, last as int);
        assert(fewer.filter(kept_before).map_values(at_before) =~= fewer.filter(kept).map_values(
            at,
        ));
        if parts.len() == 1 {
            assert(fewer.filter(kept) =~= seq![]);
            assert(all.filter(kept).map_values(at) =~= parts);
        } else if kept(last) {
            assert(all.filter(kept).map_values(at) =~= fewer.filter(kept).map_values(at).push(
                parts.last(),
            ));
        }
        assert(without_repeats(parts) == all.filter(kept).map_values(at));
        let before = without_repeats(rest);
        let now = without_repeats(parts);
        assert forall|part: Seq<char>| #[trigger] now.contains(part) <==> parts.contains(part) by {
            assert(before.contains(part) <==> rest.contains(part));
            if parts.contains(part) && part != parts.last() {
                assert(rest[parts.index_of(part)] == part);
            }
            if rest.contains(part) {
                assert(parts[rest.index_of(part)] == part);
            }
            if before.contains(part) && now != before {
                assert(now[before.index_of(part)] == part);
            }
            if now.contains(part) && part != parts.last() {
                assert(before[now.index_of(part)] == part);
            }
            assert(parts[parts.len() - 1] == parts.last());
            assert(now[now.len() - 1] == parts.last());
        }
        if parts.len() > 1 {
            assert(rest.last() == parts[parts.len() - 2]);
        }
    } else {
        assert(all.filter(kept).map_values(at) =~= parts);
    }
}

proof fn lemma_filter_below(
    all: Seq<int>,
    first: spec_fn(int) -> bool,
    second: spec_fn(int) -> bool,
    n: int,
)
    requires
        forall|i: int| 0 <= i < all.len() ==> 0 <= #[trigger] all[i] < n,
        forall|i: int| 0 <= i < n ==> #[trigger] first(i) == second(i),
    ensures
        all.filter(first) == all.filter(second),
        forall|j: int|
            0 <= j < all.filter(first).len() ==> 0 <= #[trigger] all.filter(first)[j] < n,
    decreases all.len(),
{
    reveal(Seq::filter);
    if all.len() > 0 {
        let rest = all.drop_last();
        assert forall|i: int| 0 <= i < rest.len() implies 0 <= #[trigger] rest[i] < n by {
            assert(rest[i] == all[i]);
        }
        lemma_filter_below(rest, first, second, n);
        assert(0 <= all[all.len() - 1] < n);
        assert(first(all.last()) == second(all.last()));
    }
}

/// Sorting and taking each text once gives the texts that there are, each once, in order.
pub proof fn lemma_each_once(parts: Seq<Seq<char>>)
    ensures
        ({
            let once = without_repeats(sorted(parts));
            &&& forall|part: Seq<char>| #[trigger] once.contains(part) <==> parts.contains(part)
            &&& in_order(once)
            &&& once.no_duplicates()
        }),
{
    broadcast use vstd::seq_lib::group_to_multiset_ensures;

    lemma_sorted(parts);
    let all = sorted(parts);
    let once = without_repeats(all);
    lemma_without_repeats(all);
    assert forall|part: Seq<char>| #[trigger] once.contains(part) <==> parts.contains(part) by {
        assert(all.contains(part) <==> all.to_multiset().contains(part));
        assert(parts.contains(part) <==> parts.to_multiset().contains(part));
    }
    lemma_runs_in_order(all);
    assert forall|i: int, j: int| 0 <= i < j < once.len() implies #[trigger] once[i]
        != #[trigger] once[j] by {
        assert(once[j - 1] != once[j]);
        if i < j - 1 && once[i] == once[j] {
            assert(text_le(once[i], once[j - 1]));
            assert(text_le(once[j - 1], once[j]));
            lemma_text_le_antisymmetric(once[j - 1], once[j]);
        }
    }
}

proof fn lemma_runs_in_order(parts: Seq<Seq<char>>)
    requires
        in_order(parts),
    ensures
        in_order(without_repeats(parts)),
    decreases parts.len(),
{
    if parts.len() > 1 {
        let rest = parts.drop_last();
        assert forall|i: int, j: int| 0 <= i < j < rest.len() implies text_le(
            #[trigger] rest[i],
            #[trigger] rest[j],
        ) by {
            assert(text_le(parts[i], parts[j]));
        }
        lemma_runs_in_order(rest);
        lemma_without_repeats(rest);
        let before = without_repeats(rest);
        assert forall|i: int| 0 <= i < before.len() implies text_le(
            #[trigger] before[i],
            parts.last(),
        ) by {
            assert(before.contains(before[i]));
            assert(rest.contains(before[i]));
            let j = rest.index_of(before[i]);
            assert(text_le(parts[j], parts[parts.len() - 1]));
        }
    }
}

proof fn lemma_text_le_antisymmetric(a: Seq<char>, b: Seq<char>)
    requires
        text_le(a, b),
        text_le(b, a),
    ensures
        a == b,
    decreases a.len(),
{
    if a.len() > 0 && b.len() > 0 && a[0] == b[0] {
        lemma_text_le_antisymmetric(a.skip(1), b.skip(1));
        assert(a =~= seq![a[0]] + a.skip(1));
        assert(b =~= seq![b[0]] + b.skip(1));
    } else {
        assert(a =~= b);
    }
}

proof fn lemma_line_end(line: Seq<char>, rest: Seq<char>)
    requires
        !line.contains('\n'),
    ensures
        line_end(line + seq!['\n'] + rest) == line.len(),
        line_end(line) == line.len(),
    decreases line.len(),
{
    let text = line + seq!['\n'] + rest;
    if line.len() > 0 {
        assert(line.contains(line[0]));
        assert forall|c: char| #[trigger] line.skip(1).contains(c) implies line.contains(c) by {
            assert(line[line.skip(1).index_of(c) + 1] == c);
        }
        lemma_line_end(line.skip(1), rest);
        assert(text.skip(1) =~= line.skip(1) + seq!['\n'] + rest);
    }
}

/// The lines of a text: a line feed ends a line, a carriage return before it belongs to the line
/// end, and the last line need not be ended.
pub proof fn lemma_lines(line: Seq<char>, rest: Seq<char>)
    requires
        !line.contains('\n'),
    ensures
        line.len() == 0 ==> lines(line).len() == 0,
        line.len() > 0 ==> lines(line) == seq![line],
        lines(line + seq!['\r', '\n'] + rest) == seq![line] + lines(rest),
        line.len() > 0 && line.last() == '\r' || lines(line + seq!['\n'] + rest) == seq![line]
            + lines(rest),
{
    lemma_line_end(line, rest);
    let text = line + seq!['\n'] + rest;
    assert(text.take(line.len() as int) =~= line);
    assert(text.skip(line.len() as int + 1) =~= rest);
    let longer = line.push('\r');
    assert(!longer.contains('\n')) by {
        if longer.contains('\n') {
            let i = longer.index_of('\n');
            assert(i < line.len());
            assert(line[i] == '\n');
        }
    }
    lemma_line_end(longer, rest);
    let ended = line + seq!['\r', '\n'] + rest;
    assert(ended =~= longer + seq!['\n'] + rest);
    assert(ended.take(longer.len() as int) =~= longer);
    assert(ended.skip(longer.len() as int + 1) =~= rest);
    assert(longer.drop_last() =~= line);
}

/// Lines that are joined with line feeds come apart again as they were: none of them holds a line
/// feed or ends with a carriage return, and the last one is not empty.
pub proof fn lemma_joined_lines(parts: Seq<Seq<char>>, separator: Seq<char>)
    requires
        separator == seq!['\n'],
        forall|i: int|
            0 <= i < parts.len() ==> !(#[trigger] parts[i]).contains('\n') && (parts[i].len() > 0
                ==> parts[i].last() != '\r'),
        parts.len() > 0 ==> parts.last().len() > 0,
    ensures
        lines(joined(parts, separator)) == parts,
    decreases parts.len(),
{
    if parts.len() == 0 {
        assert(joined(parts, separator) =~= seq![]);
        assert(lines(joined(parts, separator)) =~= parts);
    } else {
        let first = parts[0];
        let rest = parts.skip(1);
        lemma_lines(first, joined(rest, separator));
        if parts.len() == 1 {
            assert(seq![first] =~= parts);
        } else {
            assert forall|i: int| 0 <= i < rest.len() implies !(#[trigger] rest[i]).contains('\n')
                && (rest[i].len() > 0 ==> rest[i].last() != '\r') by {
                assert(rest[i] == parts[i + 1]);
            }
            assert(rest.last() == parts.last());
            lemma_joined_lines(rest, separator);
            lemma_joined(seq![first], rest, separator);
            assert(seq![first] + rest =~= parts);
        }
    }
}

} // verus!
