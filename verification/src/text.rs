//! Text: decimal numbers, joining, searching, lines and sorting.

use vstd::prelude::*;
use vstd::string::{StrSliceExecFns, StringExecFns};

verus! {

/// The decimal digit for a number less than ten.
pub open spec fn digit(d: nat) -> Seq<char> {
    if d == 0 {
        "0"@
    } else if d == 1 {
        "1"@
    } else if d == 2 {
        "2"@
    } else if d == 3 {
        "3"@
    } else if d == 4 {
        "4"@
    } else if d == 5 {
        "5"@
    } else if d == 6 {
        "6"@
    } else if d == 7 {
        "7"@
    } else if d == 8 {
        "8"@
    } else {
        "9"@
    }
}

/// A number in decimal, without leading zeros.
pub open spec fn decimal(n: nat) -> Seq<char>
    decreases n,
{
    if n < 10 {
        digit(n)
    } else {
        decimal(n / 10) + digit(n % 10)
    }
}

/// An integer in decimal, with a minus sign if it is negative.
pub open spec fn signed_decimal(n: int) -> Seq<char> {
    if n < 0 {
        "-"@ + decimal((-n) as nat)
    } else {
        decimal(n as nat)
    }
}

/// The parts with `separator` between neighbours.
pub open spec fn joined(parts: Seq<Seq<char>>, separator: Seq<char>) -> Seq<char>
    decreases parts.len(),
{
    if parts.len() == 0 {
        seq![]
    } else if parts.len() == 1 {
        parts[0]
    } else {
        joined(parts.drop_last(), separator) + separator + parts.last()
    }
}

/// The views of several strings.
pub open spec fn texts(parts: Seq<String>) -> Seq<Seq<char>> {
    parts.map_values(|s: String| s@)
}

/// Whether `prefix` stands at the start of the text.
pub open spec fn starts_with(text: Seq<char>, prefix: Seq<char>) -> bool {
    prefix.len() <= text.len() && text.take(prefix.len() as int) == prefix
}

/// Whether `part` stands somewhere in the text.
pub open spec fn contains_text(text: Seq<char>, part: Seq<char>) -> bool {
    exists|i: int|
        0 <= i <= text.len() && starts_with(#[trigger] text.skip(i), part)
}

/// Whether the first text comes before the second one, or is the same: in the order of
/// dictionaries, characters in the order of their code points.
pub open spec fn text_le(a: Seq<char>, b: Seq<char>) -> bool
    decreases a.len(),
{
    if a.len() == 0 {
        true
    } else if b.len() == 0 {
        false
    } else if a[0] == b[0] {
        text_le(a.skip(1), b.skip(1))
    } else {
        a[0] < b[0]
    }
}

/// The sorted texts with one more put in its place.
pub open spec fn inserted(sorted: Seq<Seq<char>>, text: Seq<char>) -> Seq<Seq<char>>
    decreases sorted.len(),
{
    if sorted.len() == 0 || text_le(sorted.last(), text) {
        sorted.push(text)
    } else {
        inserted(sorted.drop_last(), text).push(sorted.last())
    }
}

/// The texts in order.
pub open spec fn sorted(parts: Seq<Seq<char>>) -> Seq<Seq<char>>
    decreases parts.len(),
{
    if parts.len() == 0 {
        seq![]
    } else {
        inserted(sorted(parts.drop_last()), parts.last())
    }
}

/// The texts, a run of the same text taken once.
pub open spec fn without_repeats(parts: Seq<Seq<char>>) -> Seq<Seq<char>>
    decreases parts.len(),
{
    if parts.len() <= 1 {
        parts
    } else if parts.last() == parts[parts.len() - 2] {
        without_repeats(parts.drop_last())
    } else {
        without_repeats(parts.drop_last()).push(parts.last())
    }
}

/// Where the first line break stands; the length of the text if there is none.
pub open spec fn line_end(text: Seq<char>) -> int
    decreases text.len(),
{
    if text.len() == 0 || text[0] == '\n' {
        0
    } else {
        1 + line_end(text.skip(1))
    }
}

/// The text without a carriage return at its end.
pub open spec fn without_return(text: Seq<char>) -> Seq<char> {
    if text.len() > 0 && text.last() == '\r' {
        text.drop_last()
    } else {
        text
    }
}

/// The lines of a text. A line ends with a line feed, or with a carriage return and a line feed;
/// the end of the last line is optional.
pub open spec fn lines(text: Seq<char>) -> Seq<Seq<char>>
    decreases text.len(),
{
    if text.len() == 0 {
        seq![]
    } else if line_end(text) < text.len() && line_end(text) >= 0 {
        seq![without_return(text.take(line_end(text)))] + lines(text.skip(line_end(text) + 1))
    } else {
        seq![text]
    }
}

/// How many of the texts start with `prefix`.
pub open spec fn count_starting_with(parts: Seq<Seq<char>>, prefix: Seq<char>) -> nat
    decreases parts.len(),
{
    if parts.len() == 0 {
        0
    } else if starts_with(parts[0], prefix) {
        1 + count_starting_with(parts.skip(1), prefix)
    } else {
        count_starting_with(parts.skip(1), prefix)
    }
}

/// Appends the decimal digit.
fn append_digit(out: &mut String, d: usize)
    requires
        d < 10,
    ensures
        final(out)@ == old(out)@ + digit(d as nat),
{
    if d == 0 {
        out.append("0");
    } else if d == 1 {
        out.append("1");
    } else if d == 2 {
        out.append("2");
    } else if d == 3 {
        out.append("3");
    } else if d == 4 {
        out.append("4");
    } else if d == 5 {
        out.append("5");
    } else if d == 6 {
        out.append("6");
    } else if d == 7 {
        out.append("7");
    } else if d == 8 {
        out.append("8");
    } else {
        out.append("9");
    }
}

/// Appends a number in decimal.
pub fn append_decimal(out: &mut String, n: usize)
    ensures
        final(out)@ == old(out)@ + decimal(n as nat),
    decreases n,
{
    if n < 10 {
        append_digit(out, n);
    } else {
        append_decimal(out, n / 10);
        append_digit(out, n % 10);
        assert(out@ =~= old(out)@ + decimal(n as nat));
    }
}

/// Appends an integer in decimal.
pub fn append_signed_decimal(out: &mut String, n: i64)
    ensures
        final(out)@ == old(out)@ + signed_decimal(n as int),
{
    if n < 0 {
        out.append("-");
        // The last digit goes apart: the absolute value may not fit.
        append_negated(out, n);
        assert(out@ =~= old(out)@ + signed_decimal(n as int));
    } else {
        append_wide_decimal(out, n as u64);
    }
}

fn append_wide_decimal(out: &mut String, n: u64)
    ensures
        final(out)@ == old(out)@ + decimal(n as nat),
    decreases n,
{
    if n < 10 {
        append_digit(out, n as usize);
    } else {
        append_wide_decimal(out, n / 10);
        append_digit(out, (n % 10) as usize);
        assert(out@ =~= old(out)@ + decimal(n as nat));
    }
}

fn append_negated(out: &mut String, n: i64)
    requires
        n < 0,
    ensures
        final(out)@ == old(out)@ + decimal((-n) as nat),
{
    let magnitude: u64 = if n == i64::MIN {
        0x8000_0000_0000_0000
    } else {
        (-n) as u64
    };
    append_wide_decimal(out, magnitude);
}

/// Joins the parts.
pub fn join(parts: &Vec<String>, separator: &str) -> (r: String)
    ensures
        r@ == joined(texts(parts@), separator@),
{
    let mut r = String::new();
    let ghost all = texts(parts@);
    let mut i: usize = 0;
    while i < parts.len()
        invariant
            i <= parts@.len(),
            all == texts(parts@),
            r@ == joined(all.take(i as int), separator@),
        decreases parts@.len() - i,
    {
        assert(all.take(i + 1).drop_last() =~= all.take(i as int));
        if i > 0 {
            r.append(separator);
        }
        r.append(parts[i].as_str());
        assert(r@ =~= joined(all.take(i + 1), separator@));
        i = i + 1;
    }
    assert(all.take(i as int) =~= all);
    r
}

/// The characters of a text.
pub fn chars_of(text: &str) -> (r: Vec<char>)
    ensures
        r@ == text@,
{
    let n: usize = text.unicode_len();
    let mut r: Vec<char> = Vec::new();
    let mut i: usize = 0;
    while i < n
        invariant
            i <= n,
            n == text@.len(),
            r@ == text@.take(i as int),
        decreases n - i,
    {
        r.push(text.get_char(i));
        assert(text@.take(i + 1) =~= text@.take(i as int).push(text@[i as int]));
        i = i + 1;
    }
    assert(text@.take(i as int) =~= text@);
    r
}

/// Whether two texts are the same.
pub fn same_text(a: &str, b: &str) -> (r: bool)
    ensures
        r == (a@ == b@),
{
    let x = chars_of(a);
    let y = chars_of(b);
    if x.len() != y.len() {
        return false;
    }
    let mut i: usize = 0;
    while i < x.len()
        invariant
            i <= x@.len(),
            x@ == a@,
            y@ == b@,
            x@.len() == y@.len(),
            x@.take(i as int) == y@.take(i as int),
        decreases x@.len() - i,
    {
        if x[i] != y[i] {
            assert(x@[i as int] != y@[i as int]);
            return false;
        }
        assert(x@.take(i + 1) =~= x@.take(i as int).push(x@[i as int]));
        assert(y@.take(i + 1) =~= y@.take(i as int).push(y@[i as int]));
        i = i + 1;
    }
    assert(x@.take(i as int) =~= x@);
    assert(y@.take(i as int) =~= y@);
    true
}

fn precedes(a: &Vec<char>, b: &Vec<char>) -> (r: bool)
    ensures
        r == text_le(a@, b@),
{
    let mut i: usize = 0;
    assert(a@.skip(0) =~= a@);
    assert(b@.skip(0) =~= b@);
    while i < a.len() && i < b.len() && a[i] == b[i]
        invariant
            i <= a@.len(),
            i <= b@.len(),
            text_le(a@, b@) == text_le(a@.skip(i as int), b@.skip(i as int)),
        decreases a@.len() - i,
    {
        assert(a@.skip(i as int).skip(1) =~= a@.skip(i + 1));
        assert(b@.skip(i as int).skip(1) =~= b@.skip(i + 1));
        i = i + 1;
    }
    if i == a.len() {
        true
    } else if i == b.len() {
        false
    } else {
        a[i] < b[i]
    }
}

/// Whether the characters from `from` on start with the prefix, without going past `to`.
fn starts_at(text: &Vec<char>, from: usize, to: usize, prefix: &Vec<char>) -> (r: bool)
    requires
        from <= to <= text@.len(),
    ensures
        r == starts_with(text@.subrange(from as int, to as int), prefix@),
{
    let ghost part = text@.subrange(from as int, to as int);
    if prefix.len() > to - from {
        return false;
    }
    let mut i: usize = 0;
    while i < prefix.len()
        invariant
            i <= prefix@.len() <= to - from,
            from <= to <= text@.len(),
            part == text@.subrange(from as int, to as int),
            part.take(i as int) == prefix@.take(i as int),
        decreases prefix@.len() - i,
    {
        if text[from + i] != prefix[i] {
            assert(part.take(prefix@.len() as int)[i as int] != prefix@[i as int]);
            return false;
        }
        assert(part.take(i + 1) =~= part.take(i as int).push(part[i as int]));
        assert(prefix@.take(i + 1) =~= prefix@.take(i as int).push(prefix@[i as int]));
        i = i + 1;
    }
    assert(prefix@.take(i as int) =~= prefix@);
    true
}

/// Whether `part` stands somewhere in the text.
pub fn has_text(text: &str, part: &str) -> (r: bool)
    ensures
        r == contains_text(text@, part@),
{
    let all = chars_of(text);
    let wanted = chars_of(part);
    let n: usize = all.len();
    let mut i: usize = 0;
    loop
        invariant
            i <= n,
            n == all@.len(),
            all@ == text@,
            wanted@ == part@,
            forall|j: int| 0 <= j < i ==> !starts_with(#[trigger] text@.skip(j), part@),
        decreases n - i,
    {
        assert(all@.subrange(i as int, n as int) =~= text@.skip(i as int));
        if starts_at(&all, i, n, &wanted) {
            return true;
        }
        if i == n {
            return false;
        }
        i = i + 1;
    }
}

proof fn lemma_line_end(text: Seq<char>, n: int)
    requires
        0 <= n <= text.len(),
        forall|j: int| 0 <= j < n ==> text[j] != '\n',
        n < text.len() ==> text[n] == '\n',
    ensures
        line_end(text) == n,
    decreases text.len(),
{
    if n > 0 {
        lemma_line_end(text.skip(1), n - 1);
    }
}

/// How many lines of the text start with `prefix`.
pub fn count_lines_starting_with(text: &str, prefix: &str) -> (r: usize)
    ensures
        r == count_starting_with(lines(text@), prefix@),
{
    let all = chars_of(text);
    let wanted = chars_of(prefix);
    let n: usize = all.len();
    let mut count: usize = 0;
    let mut start: usize = 0;
    assert(text@.skip(0) =~= text@);
    while start < n
        invariant
            start <= n,
            count <= start,
            n == all@.len(),
            all@ == text@,
            wanted@ == prefix@,
            count_starting_with(lines(text@), prefix@) == count + count_starting_with(
                lines(text@.skip(start as int)),
                prefix@,
            ),
        decreases n - start,
    {
        let ghost rest = text@.skip(start as int);
        let mut end: usize = start;
        while end < n && all[end] != '\n'
            invariant
                start <= end <= n,
                n == all@.len(),
                all@ == text@,
                rest == text@.skip(start as int),
                forall|j: int| 0 <= j < end - start ==> #[trigger] rest[j] != '\n',
            decreases n - end,
        {
            assert(rest[end - start] == all@[end as int]);
            end = end + 1;
        }
        proof {
            if end < n {
                assert(rest[end - start] == all@[end as int]);
            }
            lemma_line_end(rest, end - start);
        }
        let mut stop: usize = end;
        if end < n && end > start && all[end - 1] == '\r' {
            stop = end - 1;
        }
        let ghost line = text@.subrange(start as int, stop as int);
        proof {
            if end < n {
                assert(rest.take(end - start).last() == rest[end - start - 1] || end == start);
                assert(line =~= without_return(rest.take(end - start)));
                let tail = lines(rest.skip(end - start + 1));
                assert(rest.skip(end - start + 1) =~= text@.skip(end + 1));
                assert(lines(rest) == seq![line] + tail);
                assert((seq![line] + tail).skip(1) =~= tail);
            } else {
                assert(line =~= rest);
                assert(lines(rest) == seq![line]);
                assert(seq![line].skip(1) =~= seq![]);
                assert(text@.skip(n as int) =~= seq![]);
            }
        }
        if starts_at(&all, start, stop, &wanted) {
            count = count + 1;
        }
        start = if end < n {
            end + 1
        } else {
            n
        };
    }
    assert(text@.skip(start as int) =~= seq![]);
    count
}

proof fn lemma_inserted(sorted: Seq<Seq<char>>, text: Seq<char>, at: int)
    requires
        0 <= at <= sorted.len(),
        at > 0 ==> text_le(sorted[at - 1], text),
        forall|j: int| at <= j < sorted.len() ==> !text_le(#[trigger] sorted[j], text),
    ensures
        inserted(sorted, text) == sorted.insert(at, text),
    decreases sorted.len(),
{
    if at == sorted.len() {
        assert(sorted.insert(at, text) =~= sorted.push(text));
    } else {
        let rest = sorted.drop_last();
        assert(!text_le(sorted[sorted.len() - 1], text));
        lemma_inserted(rest, text, at);
        assert(rest.insert(at, text).push(sorted.last()) =~= sorted.insert(at, text));
    }
}

/// Sorts the texts.
pub fn sort_texts(parts: &Vec<String>) -> (r: Vec<String>)
    ensures
        texts(r@) == sorted(texts(parts@)),
{
    let mut r: Vec<String> = Vec::new();
    let ghost all = texts(parts@);
    let mut i: usize = 0;
    while i < parts.len()
        invariant
            i <= parts@.len(),
            all == texts(parts@),
            r@.len() == i,
            texts(r@) == sorted(all.take(i as int)),
        decreases parts@.len() - i,
    {
        assert(all.take(i + 1).drop_last() =~= all.take(i as int));
        let ghost before = r@;
        let text = chars_of(parts[i].as_str());
        let mut at: usize = r.len();
        while at > 0 && !precedes(&chars_of(r[at - 1].as_str()), &text)
            invariant
                at <= r@.len(),
                forall|j: int| at <= j < r@.len() ==> !text_le(#[trigger] texts(r@)[j], text@),
            decreases at,
        {
            at = at - 1;
        }
        proof {
            lemma_inserted(texts(before), text@, at as int);
        }
        r.insert(at, parts[i].clone());
        assert(texts(r@) =~= texts(before).insert(at as int, text@));
        i = i + 1;
    }
    assert(all.take(i as int) =~= all);
    r
}

/// Takes a run of the same text once.
pub fn dedup_texts(parts: &Vec<String>) -> (r: Vec<String>)
    ensures
        texts(r@) == without_repeats(texts(parts@)),
{
    let mut r: Vec<String> = Vec::new();
    let ghost all = texts(parts@);
    let mut i: usize = 0;
    while i < parts.len()
        invariant
            i <= parts@.len(),
            all == texts(parts@),
            texts(r@) == without_repeats(all.take(i as int)),
        decreases parts@.len() - i,
    {
        assert(all.take(i + 1).drop_last() =~= all.take(i as int));
        let ghost before = r@;
        if i == 0 || !same_text(parts[i - 1].as_str(), parts[i].as_str()) {
            r.push(parts[i].clone());
            assert(texts(r@) =~= texts(before).push(all[i as int]));
            if i == 0 {
                assert(all.take(1) =~= seq![all[0]]);
            }
        }
        i = i + 1;
    }
    assert(all.take(i as int) =~= all);
    r
}

proof fn lemma_text_le_total(a: Seq<char>, b: Seq<char>)
    ensures
        text_le(a, b) || text_le(b, a),
    decreases a.len(),
{
    if a.len() > 0 && b.len() > 0 && a[0] == b[0] {
        lemma_text_le_total(a.skip(1), b.skip(1));
    }
}

proof fn lemma_text_le_transitive(a: Seq<char>, b: Seq<char>, c: Seq<char>)
    requires
        text_le(a, b),
        text_le(b, c),
    ensures
        text_le(a, c),
    decreases a.len(),
{
    if a.len() > 0 && a[0] == b[0] && b[0] == c[0] {
        lemma_text_le_transitive(a.skip(1), b.skip(1), c.skip(1));
    }
}

/// Whether no text comes before its predecessor.
pub open spec fn in_order(parts: Seq<Seq<char>>) -> bool {
    forall|i: int, j: int|
        0 <= i < j < parts.len() ==> text_le(#[trigger] parts[i], #[trigger] parts[j])
}

proof fn lemma_inserted_in_order(parts: Seq<Seq<char>>, text: Seq<char>)
    requires
        in_order(parts),
    ensures
        in_order(inserted(parts, text)),
        inserted(parts, text).to_multiset() == parts.to_multiset().insert(text),
    decreases parts.len(),
{
    broadcast use vstd::seq_lib::group_to_multiset_ensures;

    if parts.len() > 0 && !text_le(parts.last(), text) {
        let rest = parts.drop_last();
        let last = parts.last();
        lemma_inserted_in_order(rest, text);
        lemma_text_le_total(last, text);
        let out = inserted(rest, text);
        assert(parts =~= rest.push(last));
        assert forall|i: int| 0 <= i < out.len() implies text_le(#[trigger] out[i], last) by {
            assert(out.to_multiset().contains(out[i]));
            if out[i] != text {
                assert(rest.to_multiset().contains(out[i]));
                let j = rest.index_of(out[i]);
                assert(text_le(parts[j], parts[parts.len() - 1]));
            }
        }
        assert(inserted(parts, text).to_multiset() =~= parts.to_multiset().insert(text));
    } else {
        assert forall|i: int| 0 <= i < parts.len() implies text_le(#[trigger] parts[i], text) by {
            if i < parts.len() - 1 {
                assert(text_le(parts[i], parts[parts.len() - 1]));
                lemma_text_le_transitive(parts[i], parts.last(), text);
            }
        }
    }
}

/// Sorting puts the texts in order, and neither adds nor takes out any.
pub proof fn lemma_sorted(parts: Seq<Seq<char>>)
    ensures
        in_order(sorted(parts)),
        sorted(parts).to_multiset() == parts.to_multiset(),
    decreases parts.len(),
{
    broadcast use vstd::seq_lib::group_to_multiset_ensures;

    if parts.len() > 0 {
        lemma_sorted(parts.drop_last());
        lemma_inserted_in_order(sorted(parts.drop_last()), parts.last());
        assert(parts =~= parts.drop_last().push(parts.last()));
    } else {
        assert(sorted(parts) =~= parts);
    }
}

} // verus!
