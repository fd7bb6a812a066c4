//! Plain text operations: equality, decimal numbers, ordering, joining.

use vstd::prelude::*;

verus! {

broadcast use vstd::string::group_string_axioms;

/// The contents of a list of strings.
pub open spec fn texts(list: Seq<String>) -> Seq<Seq<char>> {
    list.map_values(|s: String| s@)
}

/// Two texts with the same UTF-8 encoding are the same text.
pub proof fn lemma_encoding_is_injective(a: Seq<char>, b: Seq<char>)
    requires
        vstd::utf8::encode_utf8(a) == vstd::utf8::encode_utf8(b),
    ensures
        a == b,
{
    vstd::utf8::encode_utf8_decode_utf8(a);
    vstd::utf8::encode_utf8_decode_utf8(b);
}

/// Whether two byte strings are equal.
pub fn same_bytes(a: &[u8], b: &[u8]) -> (same: bool)
    ensures
        same == (a@ == b@),
{
    if a.len() != b.len() {
        return false;
    }
    let mut i: usize = 0;
    while i < a.len()
        invariant
            i <= a.len(),
            a@.len() == b@.len(),
            forall|j: int| 0 <= j < i ==> a@[j] == b@[j],
        decreases a.len() - i,
    {
        if a[i] != b[i] {
            return false;
        }
        i += 1;
    }
    assert(a@ =~= b@);
    true
}

/// Whether two texts are equal.
pub fn same_text(a: &str, b: &str) -> (same: bool)
    ensures
        same == (a@ == b@),
{
    let same = same_bytes(a.as_bytes(), b.as_bytes());
    proof {
        if same {
            lemma_encoding_is_injective(a@, b@);
        }
    }
    same
}

/// The position of the first `wanted` in a text, or the length of the text if it
/// holds none.
pub open spec fn first_index(s: Seq<char>, wanted: char) -> int
    decreases s.len(),
{
    if s.len() == 0 || s[0] == wanted {
        0
    } else {
        1 + first_index(s.drop_first(), wanted)
    }
}

/// The first index is where the character stands, with none before it.
pub proof fn lemma_first_index(s: Seq<char>, wanted: char)
    ensures
        0 <= first_index(s, wanted) <= s.len(),
        first_index(s, wanted) < s.len() ==> s[first_index(s, wanted)] == wanted,
        forall|j: int| 0 <= j < first_index(s, wanted) ==> s[j] != wanted,
    decreases s.len(),
{
    if s.len() > 0 && s[0] != wanted {
        let rest = s.drop_first();
        lemma_first_index(rest, wanted);
        assert forall|j: int| 0 <= j < first_index(s, wanted) implies s[j] != wanted by {
            if j > 0 {
                assert(s[j] == rest[j - 1]);
            }
        }
    }
}

/// Only one position has the character and none before it.
pub proof fn lemma_first_index_unique(s: Seq<char>, wanted: char, at: int)
    requires
        0 <= at <= s.len(),
        at < s.len() ==> s[at] == wanted,
        forall|j: int| 0 <= j < at ==> s[j] != wanted,
    ensures
        first_index(s, wanted) == at,
{
    lemma_first_index(s, wanted);
}

/// Find the first `wanted` in a text, counting characters.
pub fn find_char(s: &str, wanted: char) -> (at: usize)
    ensures
        at == first_index(s@, wanted),
{
    let length = s.unicode_len();
    let mut at: usize = 0;
    for c in it: s.chars()
        invariant
            length == s@.len(),
            it.seq() == s@,
            at == it.index(),
            forall|j: int| 0 <= j < at ==> s@[j] != wanted,
    {
        if c == wanted {
            proof {
                lemma_first_index_unique(s@, wanted, at as int);
            }
            return at;
        }
        at += 1;
    }
    proof {
        lemma_first_index_unique(s@, wanted, at as int);
    }
    at
}

/// A line without the carriage return before its line feed.
pub open spec fn without_carriage_return(line: Seq<char>) -> Seq<char> {
    if line.len() > 0 && line.last() == '\r' {
        line.drop_last()
    } else {
        line
    }
}

/// The lines of a text. They end with a line feed, or with a carriage return and
/// a line feed; the last one may end without.
pub open spec fn lines(s: Seq<char>) -> Seq<Seq<char>>
    decreases s.len(),
{
    let end = first_index(s, '\n');
    if s.len() == 0 {
        seq![]
    } else if end >= s.len() {
        seq![s]
    } else {
        proof {
            lemma_first_index(s, '\n');
        }
        seq![without_carriage_return(s.take(end))] + lines(s.skip(end + 1))
    }
}

/// The first text of a list that is not the given one.
pub open spec fn first_other(list: Seq<Seq<char>>, excluded: Seq<char>) -> Option<Seq<char>>
    decreases list.len(),
{
    if list.len() == 0 {
        None
    } else if list[0] != excluded {
        Some(list[0])
    } else {
        first_other(list.drop_first(), excluded)
    }
}

/// The first other text is in the list and is not the given one; there is none
/// only if the list holds nothing else.
pub proof fn lemma_first_other(list: Seq<Seq<char>>, excluded: Seq<char>)
    ensures
        first_other(list, excluded) matches Some(found) ==> found != excluded && list.contains(
            found,
        ),
        first_other(list, excluded) is None ==> forall|i: int|
            0 <= i < list.len() ==> #[trigger] list[i] == excluded,
    decreases list.len(),
{
    if list.len() > 0 {
        let rest = list.drop_first();
        lemma_first_other(rest, excluded);
        match first_other(list, excluded) {
            Some(found) => {
                if list[0] != excluded {
                    assert(list.contains(list[0]));
                } else {
                    let k = choose|k: int| 0 <= k < rest.len() && rest[k] == found;
                    assert(list[k + 1] == found);
                }
            },
            None => {
                assert forall|i: int| 0 <= i < list.len() implies #[trigger] list[i] == excluded by {
                    if i > 0 {
                        assert(list[i] == rest[i - 1]);
                    }
                }
            },
        }
    }
}

/// Find the first line of a text that is not the given one.
pub fn first_other_line(s: &str, excluded: &str) -> (line: Option<String>)
    ensures
        text_option(line) == first_other(lines(s@), excluded@),
{
    let mut rest = s;
    loop
        invariant
            first_other(lines(s@), excluded@) == first_other(lines(rest@), excluded@),
        decreases rest@.len(),
    {
        let length = rest.unicode_len();
        if length == 0 {
            assert(lines(rest@).len() == 0);
            return None;
        }
        let end = find_char(rest, '\n');
        proof {
            lemma_first_index(rest@, '\n');
        }
        if end >= length {
            proof {
                reveal_with_fuel(first_other, 2);
                assert(lines(rest@) =~= seq![rest@]);
            }
            if same_text(rest, excluded) {
                return None;
            }
            return Some(rest.to_owned());
        }
        let stop: usize = if end > 0 && rest.get_char(end - 1) == '\r' {
            end - 1
        } else {
            end
        };
        let line = rest.substring_char(0, stop);
        let after = rest.substring_char(end + 1, length);
        proof {
            assert(line@ =~= without_carriage_return(rest@.take(end as int)));
            assert(after@ =~= rest@.skip(end + 1));
            assert(lines(rest@) =~= seq![line@] + lines(after@));
            assert(lines(rest@).drop_first() =~= lines(after@));
        }
        if !same_text(line, excluded) {
            return Some(line.to_owned());
        }
        rest = after;
    }
}

/// The contents of an optional string.
pub open spec fn text_option(s: Option<String>) -> Option<Seq<char>> {
    match s {
        Some(s) => Some(s@),
        None => None,
    }
}

/// A copy of an optional string.
pub fn copy_text_option(s: &Option<String>) -> (copy: Option<String>)
    ensures
        text_option(copy) == text_option(*s),
{
    match s {
        Some(s) => Some(s.clone()),
        None => None,
    }
}

/// The decimal digit of a number below ten.
pub open spec fn digit(d: nat) -> char {
    ('0' as u32 + d) as char
}

/// A number in decimal notation.
pub open spec fn decimal(n: nat) -> Seq<char>
    decreases n,
{
    if n < 10 {
        seq![digit(n)]
    } else {
        decimal(n / 10).push(digit(n % 10))
    }
}

/// A signed number in decimal notation.
pub open spec fn signed_decimal(n: int) -> Seq<char> {
    if n < 0 {
        seq!['-'] + decimal((-n) as nat)
    } else {
        decimal(n as nat)
    }
}

fn digit_text(d: u64) -> (s: &'static str)
    requires
        d < 10,
    ensures
        s@ == seq![digit(d as nat)],
{
    proof {
        reveal_strlit("0");
        reveal_strlit("1");
        reveal_strlit("2");
        reveal_strlit("3");
        reveal_strlit("4");
        reveal_strlit("5");
        reveal_strlit("6");
        reveal_strlit("7");
        reveal_strlit("8");
        reveal_strlit("9");
    }
    match d {
        0 => "0",
        1 => "1",
        2 => "2",
        3 => "3",
        4 => "4",
        5 => "5",
        6 => "6",
        7 => "7",
        8 => "8",
        _ => "9",
    }
}

/// Write a number in decimal notation.
pub fn decimal_text(n: u64) -> (s: String)
    ensures
        s@ == decimal(n as nat),
    decreases n,
{
    if n < 10 {
        digit_text(n).to_owned()
    } else {
        let mut s = decimal_text(n / 10);
        s.append(digit_text(n % 10));
        assert(s@ =~= decimal((n / 10) as nat).push(digit((n % 10) as nat)));
        s
    }
}

/// Write a signed number in decimal notation.
pub fn signed_decimal_text(n: i32) -> (s: String)
    ensures
        s@ == signed_decimal(n as int),
{
    if n < 0 {
        proof {
            reveal_strlit("-");
        }
        let magnitude: u64 = (-(n as i64)) as u64;
        let mut s = "-".to_owned();
        s.append(decimal_text(magnitude).as_str());
        assert(s@ =~= signed_decimal(n as int));
        s
    } else {
        decimal_text(n as u64)
    }
}

/// Lexicographic order on byte strings.
pub open spec fn bytes_le(a: Seq<u8>, b: Seq<u8>) -> bool
    decreases a.len(),
{
    if a.len() == 0 {
        true
    } else if b.len() == 0 {
        false
    } else if a[0] != b[0] {
        a[0] < b[0]
    } else {
        bytes_le(a.drop_first(), b.drop_first())
    }
}

/// The order of strings: lexicographic on their UTF-8 bytes.
pub open spec fn text_le(a: Seq<char>, b: Seq<char>) -> bool {
    bytes_le(vstd::utf8::encode_utf8(a), vstd::utf8::encode_utf8(b))
}

/// A list of texts in ascending order.
pub open spec fn sorted_texts(list: Seq<Seq<char>>) -> Seq<Seq<char>> {
    list.sort_by(|a: Seq<char>, b: Seq<char>| text_le(a, b))
}

proof fn lemma_bytes_le_total(a: Seq<u8>, b: Seq<u8>)
    ensures
        bytes_le(a, b) || bytes_le(b, a),
        bytes_le(a, a),
        bytes_le(a, b) && bytes_le(b, a) ==> a == b,
    decreases a.len(),
{
    if a.len() > 0 {
        lemma_bytes_le_total(a.drop_first(), a.drop_first());
        if b.len() > 0 && a[0] == b[0] {
            lemma_bytes_le_total(a.drop_first(), b.drop_first());
            if a.drop_first() == b.drop_first() {
                assert(a =~= seq![a[0]] + a.drop_first());
                assert(b =~= seq![b[0]] + b.drop_first());
            }
        }
    } else if b.len() == 0 {
        assert(a =~= b);
    }
}

proof fn lemma_bytes_le_transitive(a: Seq<u8>, b: Seq<u8>, c: Seq<u8>)
    requires
        bytes_le(a, b),
        bytes_le(b, c),
    ensures
        bytes_le(a, c),
    decreases a.len(),
{
    if a.len() > 0 && b.len() > 0 && c.len() > 0 && a[0] == b[0] && b[0] == c[0] {
        lemma_bytes_le_transitive(a.drop_first(), b.drop_first(), c.drop_first());
    }
}

proof fn lemma_text_le_is_total_ordering()
    ensures
        vstd::relations::total_ordering(|a: Seq<char>, b: Seq<char>| text_le(a, b)),
{
    let leq = |a: Seq<char>, b: Seq<char>| text_le(a, b);
    assert forall|a: Seq<char>| #[trigger] leq(a, a) by {
        lemma_bytes_le_total(vstd::utf8::encode_utf8(a), vstd::utf8::encode_utf8(a));
    }
    assert forall|a: Seq<char>, b: Seq<char>| #[trigger] leq(a, b) && #[trigger] leq(b, a) implies a
        == b by {
        lemma_bytes_le_total(vstd::utf8::encode_utf8(a), vstd::utf8::encode_utf8(b));
        lemma_encoding_is_injective(a, b);
    }
    assert forall|a: Seq<char>, b: Seq<char>, c: Seq<char>| #[trigger]
        leq(a, b) && #[trigger] leq(b, c) implies leq(a, c) by {
        lemma_bytes_le_transitive(
            vstd::utf8::encode_utf8(a),
            vstd::utf8::encode_utf8(b),
            vstd::utf8::encode_utf8(c),
        );
    }
    assert forall|a: Seq<char>, b: Seq<char>| #[trigger] leq(a, b) || #[trigger] leq(b, a) by {
        lemma_bytes_le_total(vstd::utf8::encode_utf8(a), vstd::utf8::encode_utf8(b));
    }
}

fn bytes_at_most(a: &[u8], b: &[u8]) -> (le: bool)
    ensures
        le == bytes_le(a@, b@),
{
    let mut i: usize = 0;
    assert(a@.skip(0) =~= a@ && b@.skip(0) =~= b@);
    while i < a.len() && i < b.len()
        invariant
            i <= a@.len(),
            i <= b@.len(),
            bytes_le(a@, b@) == bytes_le(a@.skip(i as int), b@.skip(i as int)),
        decreases a.len() - i,
    {
        if a[i] != b[i] {
            return a[i] < b[i];
        }
        assert(a@.skip(i as int).drop_first() =~= a@.skip(i + 1));
        assert(b@.skip(i as int).drop_first() =~= b@.skip(i + 1));
        i += 1;
    }
    i >= a.len()
}

/// Insert a string into an ascending list, keeping it ascending.
fn insert_sorted(list: &mut Vec<String>, item: String)
    requires
        vstd::relations::sorted_by(texts(old(list)@), |a: Seq<char>, b: Seq<char>| text_le(a, b)),
    ensures
        vstd::relations::sorted_by(texts(final(list)@), |a: Seq<char>, b: Seq<char>| text_le(a, b)),
        texts(final(list)@).to_multiset() == texts(old(list)@).to_multiset().insert(item@),
{
    let ghost leq = |a: Seq<char>, b: Seq<char>| text_le(a, b);
    let mut at: usize = 0;
    while at < list.len() && bytes_at_most(list[at].as_str().as_bytes(), item.as_str().as_bytes())
        invariant
            at <= list@.len(),
            forall|j: int| 0 <= j < at ==> text_le(#[trigger] list@[j]@, item@),
        decreases list.len() - at,
    {
        at += 1;
    }
    let ghost before = texts(list@);
    proof {
        lemma_text_le_is_total_ordering();
        if at < list@.len() {
            assert(leq(item@, list@[at as int]@) || leq(list@[at as int]@, item@));
        }
    }
    list.insert(at, item);
    proof {
        let after = texts(list@);
        assert(after =~= before.insert(at as int, item@));
        vstd::seq_lib::to_multiset_insert(before, at as int, item@);
        assert forall|i: int, j: int| 0 <= i < j < after.len() implies #[trigger] leq(
            after[i],
            after[j],
        ) by {
            if i < at && j == at {
                assert(after[i] == before[i]);
            } else if i < at && j > at {
                assert(leq(before[i], before[j - 1]));
            } else if i == at {
                assert(at == j - 1 || leq(before[at as int], before[j - 1]));
                assert(leq(item@, before[at as int]));
            } else if j < at {
                assert(leq(before[i], before[j]));
            } else {
                assert(leq(before[i - 1], before[j - 1]));
            }
        }
    }
}

/// Sort a list of strings in ascending order.
pub fn sort_texts(list: Vec<String>) -> (sorted: Vec<String>)
    ensures
        texts(sorted@) == sorted_texts(texts(list@)),
{
    let ghost all = texts(list@);
    let ghost leq = |a: Seq<char>, b: Seq<char>| text_le(a, b);
    let mut sorted: Vec<String> = Vec::new();
    let mut i: usize = 0;
    assert(all.take(0) =~= texts(sorted@));
    while i < list.len()
        invariant
            i <= list@.len(),
            all == texts(list@),
            leq == (|a: Seq<char>, b: Seq<char>| text_le(a, b)),
            vstd::relations::sorted_by(texts(sorted@), leq),
            texts(sorted@).to_multiset() == all.take(i as int).to_multiset(),
        decreases list.len() - i,
    {
        proof {
            assert(all.take(i + 1) =~= all.take(i as int).push(all[i as int]));
            vstd::seq_lib::to_multiset_build(all.take(i as int), all[i as int]);
        }
        insert_sorted(&mut sorted, list[i].clone());
        i += 1;
    }
    proof {
        assert(all.take(i as int) =~= all);
        lemma_text_le_is_total_ordering();
        all.lemma_sort_by_ensures(leq);
        vstd::seq_lib::lemma_sorted_unique(texts(sorted@), all.sort_by(leq), leq);
    }
    sorted
}

/// The order in which texts are listed does not matter to their sorted list.
pub proof fn lemma_sorted_texts_ignores_order(a: Seq<Seq<char>>, b: Seq<Seq<char>>)
    requires
        a.to_multiset() == b.to_multiset(),
    ensures
        sorted_texts(a) == sorted_texts(b),
{
    let leq = |a: Seq<char>, b: Seq<char>| text_le(a, b);
    lemma_text_le_is_total_ordering();
    a.lemma_sort_by_ensures(leq);
    b.lemma_sort_by_ensures(leq);
    vstd::seq_lib::lemma_sorted_unique(a.sort_by(leq), b.sort_by(leq), leq);
}

/// Sorting keeps every text of the list.
pub proof fn lemma_sorted_texts_keep_elements(list: Seq<Seq<char>>, item: Seq<char>)
    ensures
        sorted_texts(list).contains(item) == list.contains(item),
        sorted_texts(list).len() == list.len(),
{
    let leq = |a: Seq<char>, b: Seq<char>| text_le(a, b);
    lemma_text_le_is_total_ordering();
    list.lemma_sort_by_ensures(leq);
    vstd::seq_lib::to_multiset_contains(list, item);
    vstd::seq_lib::to_multiset_contains(list.sort_by(leq), item);
    vstd::seq_lib::to_multiset_len(list);
    vstd::seq_lib::to_multiset_len(list.sort_by(leq));
}

/// The texts of a list with a separator between them.
pub open spec fn joined(list: Seq<Seq<char>>, separator: Seq<char>) -> Seq<char>
    decreases list.len(),
{
    if list.len() == 0 {
        seq![]
    } else if list.len() == 1 {
        list[0]
    } else {
        joined(list.drop_last(), separator) + separator + list.last()
    }
}

/// Join strings with a separator between them.
pub fn join_texts(list: &Vec<String>, separator: &str) -> (s: String)
    ensures
        s@ == joined(texts(list@), separator@),
{
    let ghost all = texts(list@);
    let mut s = String::new();
    let mut i: usize = 0;
    while i < list.len()
        invariant
            i <= list@.len(),
            all == texts(list@),
            s@ == joined(all.take(i as int), separator@),
        decreases list.len() - i,
    {
        if i > 0 {
            s.append(separator);
        }
        s.append(list[i].as_str());
        proof {
            assert(all.take(i + 1).drop_last() =~= all.take(i as int));
            assert(all.take(i + 1).last() == list@[i as int]@);
            if i == 0 {
                assert(s@ =~= all.take(1)[0]);
            }
        }
        i += 1;
    }
    assert(all.take(i as int) =~= all);
    s
}

/// The number that a text of decimal digits stands for.
pub open spec fn value_of(s: Seq<char>) -> int
    decreases s.len(),
{
    if s.len() == 0 {
        0
    } else {
        10 * value_of(s.take(s.len() - 1)) + (s[s.len() - 1] as int - '0' as int)
    }
}

/// A number is written with decimal digits that stand for it, without a needless
/// zero in front.
pub proof fn lemma_decimal_stands_for_its_number(n: nat)
    ensures
        value_of(decimal(n)) == n,
        decimal(n).len() > 0,
        forall|i: int| 0 <= i < decimal(n).len() ==> '0' <= #[trigger] decimal(n)[i] <= '9',
        n > 0 ==> decimal(n)[0] != '0',
        n == 0 ==> decimal(n) == seq!['0'],
    decreases n,
{
    let s = decimal(n);
    if n < 10 {
        assert(s.take(0) =~= seq![]);
        assert(value_of(s.take(0)) == 0);
    } else {
        lemma_decimal_stands_for_its_number(n / 10);
        assert(s.take(s.len() - 1) =~= decimal(n / 10));
    }
}

/// A negative number is written with a minus sign, and any other without a sign.
pub proof fn lemma_sign_of_a_number(n: int)
    ensures
        n >= 0 ==> value_of(signed_decimal(n)) == n && signed_decimal(n)[0] != '-',
        n < 0 ==> signed_decimal(n)[0] == '-' && value_of(signed_decimal(n).skip(1)) == -n,
{
    if n >= 0 {
        lemma_decimal_stands_for_its_number(n as nat);
    } else {
        lemma_decimal_stands_for_its_number((-n) as nat);
        assert(signed_decimal(n).skip(1) =~= decimal((-n) as nat));
    }
}

/// The first line of a text ends before its first line feed, without the carriage
/// return in front of that; the other lines are those of what follows. A text without
/// a line feed is one line, and an empty one has none.
pub proof fn lemma_lines_end_at_line_feeds(line: Seq<char>, rest: Seq<char>)
    requires
        !line.contains('\n'),
    ensures
        lines(seq![]) == Seq::<Seq<char>>::empty(),
        line.len() > 0 ==> lines(line) == seq![line],
        line.len() == 0 || line[line.len() - 1] != '\r' ==> lines(line + seq!['\n'] + rest)
            == seq![line] + lines(rest),
        lines(line + seq!['\r', '\n'] + rest) == seq![line] + lines(rest),
{
    assert forall|j: int| 0 <= j < line.len() implies line[j] != '\n' by {
        assert(line.contains(line[j]));
    }
    lemma_first_index_unique(line, '\n', line.len() as int);
    let plain = line + seq!['\n'] + rest;
    lemma_first_index_unique(plain, '\n', line.len() as int);
    assert(plain.take(line.len() as int) =~= line);
    assert(plain.skip(line.len() as int + 1) =~= rest);
    let returned = line + seq!['\r', '\n'] + rest;
    lemma_first_index_unique(returned, '\n', line.len() as int + 1);
    assert(returned.take(line.len() as int + 1) =~= line.push('\r'));
    assert(line.push('\r').drop_last() =~= line);
    assert(returned.skip(line.len() as int + 2) =~= rest);
}

/// The first other text of a list is at a position before which there is only the
/// given text.
pub proof fn lemma_first_other_is_the_first(list: Seq<Seq<char>>, excluded: Seq<char>, at: int)
    requires
        0 <= at < list.len(),
        list[at] != excluded,
        forall|j: int| 0 <= j < at ==> #[trigger] list[j] == excluded,
    ensures
        first_other(list, excluded) == Some(list[at]),
    decreases list.len(),
{
    if at > 0 {
        let rest = list.drop_first();
        assert(list[0] == excluded);
        assert forall|j: int| 0 <= j < at - 1 implies #[trigger] rest[j] == excluded by {
            assert(rest[j] == list[j + 1]);
        }
        lemma_first_other_is_the_first(rest, excluded, at - 1);
    }
}

/// Texts are ordered by their UTF-8 bytes: by the first byte in which they differ,
/// and otherwise the shorter one first.
pub proof fn lemma_order_of_texts(a: Seq<char>, b: Seq<char>, common: int)
    requires
        ({
            let left = vstd::utf8::encode_utf8(a);
            let right = vstd::utf8::encode_utf8(b);
            &&& 0 <= common <= left.len()
            &&& common <= right.len()
            &&& left.take(common) == right.take(common)
            &&& common == left.len() || common == right.len() || left[common] != right[common]
        }),
    ensures
        ({
            let left = vstd::utf8::encode_utf8(a);
            let right = vstd::utf8::encode_utf8(b);
            text_le(a, b) <==> common == left.len() || (common < right.len() && left[common]
                < right[common])
        }),
{
    lemma_order_of_bytes(vstd::utf8::encode_utf8(a), vstd::utf8::encode_utf8(b), common);
}

proof fn lemma_order_of_bytes(left: Seq<u8>, right: Seq<u8>, common: int)
    requires
        0 <= common <= left.len(),
        common <= right.len(),
        left.take(common) == right.take(common),
        common == left.len() || common == right.len() || left[common] != right[common],
    ensures
        bytes_le(left, right) <==> common == left.len() || (common < right.len() && left[common]
            < right[common]),
    decreases common,
{
    if common > 0 {
        assert(left.take(common)[0] == left[0] && right.take(common)[0] == right[0]);
        assert(left[0] == right[0]);
        assert(common < left.len() ==> left.drop_first()[common - 1] == left[common]);
        assert(common < right.len() ==> right.drop_first()[common - 1] == right[common]);
        assert(left.drop_first().take(common - 1) =~= left.take(common).drop_first());
        assert(right.drop_first().take(common - 1) =~= right.take(common).drop_first());
        lemma_order_of_bytes(left.drop_first(), right.drop_first(), common - 1);
    }
}

/// A sorted list holds the same texts as the list, each as often, in ascending order.
pub proof fn lemma_sorted_texts_are_ordered(list: Seq<Seq<char>>)
    ensures
        sorted_texts(list).to_multiset() == list.to_multiset(),
        forall|i: int, j: int|
            0 <= i < j < sorted_texts(list).len() ==> text_le(
                #[trigger] sorted_texts(list)[i],
                #[trigger] sorted_texts(list)[j],
            ),
{
    let leq = |a: Seq<char>, b: Seq<char>| text_le(a, b);
    lemma_text_le_is_total_ordering();
    list.lemma_sort_by_ensures(leq);
    assert forall|i: int, j: int| 0 <= i < j < sorted_texts(list).len() implies text_le(
        #[trigger] sorted_texts(list)[i],
        #[trigger] sorted_texts(list)[j],
    ) by {
        assert(leq(sorted_texts(list)[i], sorted_texts(list)[j]));
    }
}

/// Two joined lists with a separator between are the joined list of both.
pub proof fn lemma_joined_concat(a: Seq<Seq<char>>, b: Seq<Seq<char>>, separator: Seq<char>)
    ensures
        joined(seq![], separator) == Seq::<char>::empty(),
        forall|only: Seq<char>| #[trigger] joined(seq![only], separator) == only,
        a.len() > 0 && b.len() > 0 ==> joined(a + b, separator) == joined(a, separator) + separator
            + joined(b, separator),
    decreases b.len(),
{
    if a.len() > 0 && b.len() > 0 {
        assert((a + b).drop_last() =~= a + b.drop_last());
        if b.len() == 1 {
            assert(a + b.drop_last() =~= a);
        } else {
            lemma_joined_concat(a, b.drop_last(), separator);
            assert(joined(a + b, separator) =~= joined(a, separator) + separator + joined(
                b,
                separator,
            ));
        }
    }
}

/// A list of strings is told string by string, and an optional string as it is.
pub proof fn lemma_strings_are_told_as_they_are(list: Seq<String>, option: Option<String>)
    ensures
        texts(list).len() == list.len(),
        forall|i: int| 0 <= i < list.len() ==> #[trigger] texts(list)[i] == list[i]@,
        option matches Some(s) ==> text_option(option) == Some(s@),
        option is None ==> text_option(option) is None,
{
}

} // verus!
