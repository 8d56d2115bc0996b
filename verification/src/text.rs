//! Text as sequences of characters: searching, trimming, letter case, numbers and order.

use vstd::prelude::*;
use vstd::string::*;

verus! {

/// `String::push` of the standard library: the character is added at the end.
pub assume_specification[ std::string::String::push ](s: &mut std::string::String, c: char)
    ensures
        final(s)@ == old(s)@.push(c),
;

/// A text's characters.
pub fn chars_of(s: &str) -> (chars: Vec<char>)
    ensures
        chars@ == s@,
{
    let mut out: Vec<char> = Vec::new();
    for c in it: s.chars()
        invariant
            out@ == it.seq().take(it.index() as int),
            it.seq() == s@,
    {
        out.push(c);
    }
    out
}

/// Characters `from..to` as a text of their own.
pub fn string_of(chars: &Vec<char>, from: usize, to: usize) -> (s: String)
    requires
        from <= to <= chars@.len(),
    ensures
        s@ == chars@.subrange(from as int, to as int),
{
    let mut out = String::new();
    let mut i: usize = from;
    while i < to
        invariant
            from <= i <= to <= chars@.len(),
            out@ == chars@.subrange(from as int, i as int),
        decreases to - i,
    {
        out.push(chars[i]);
        i = i + 1;
        assert(chars@.subrange(from as int, i as int) =~= chars@.subrange(
            from as int,
            i - 1,
        ).push(chars@[i - 1]));
    }
    out
}

/// Whether two texts hold the same characters.
pub fn same(a: &str, b: &str) -> (yes: bool)
    ensures
        yes == (a@ == b@),
{
    let x = chars_of(a);
    let y = chars_of(b);
    assert(x@.subrange(0, x@.len() as int) =~= x@);
    x.len() == y.len() && matches_at(&x, 0, &y)
}

/// Whether `part` stands in `whole` at `at`.
pub open spec fn stands_at(whole: Seq<char>, part: Seq<char>, at: int) -> bool {
    0 <= at && at + part.len() <= whole.len() && whole.subrange(at, at + part.len()) == part
}

/// Whether `part` occurs anywhere in `whole`.
pub open spec fn occurs(whole: Seq<char>, part: Seq<char>) -> bool {
    exists|at: int| stands_at(whole, part, at)
}

fn matches_at(whole: &Vec<char>, at: usize, part: &Vec<char>) -> (yes: bool)
    requires
        at <= whole@.len(),
    ensures
        yes == stands_at(whole@, part@, at as int),
{
    if part.len() > whole.len() - at {
        return false;
    }
    let mut i: usize = 0;
    while i < part.len()
        invariant
            i <= part@.len(),
            at + part@.len() <= whole.len(),
            forall|k: int| 0 <= k < i ==> whole@[at + k] == part@[k],
        decreases part.len() - i,
    {
        if whole[at + i] != part[i] {
            assert(whole@.subrange(at as int, at + part@.len())[i as int] != part@[i as int]);
            return false;
        }
        i = i + 1;
    }
    assert(whole@.subrange(at as int, at + part@.len()) =~= part@);
    true
}

/// The first place at or after `from` where `part` stands in `whole`.
pub open spec fn first_place(whole: Seq<char>, part: Seq<char>, from: int) -> Option<int>
    decreases whole.len() + 1 - from,
{
    if from < 0 || from > whole.len() {
        None
    } else if stands_at(whole, part, from) {
        Some(from)
    } else {
        first_place(whole, part, from + 1)
    }
}

/// The last place at or before `from` where `part` stands in `whole`.
pub open spec fn last_place(whole: Seq<char>, part: Seq<char>, from: int) -> Option<int>
    decreases from + 1,
{
    if from < 0 {
        None
    } else if stands_at(whole, part, from) {
        Some(from)
    } else {
        last_place(whole, part, from - 1)
    }
}

/// An index as an integer, where there is one.
pub open spec fn place(at: Option<usize>) -> Option<int> {
    match at {
        Some(i) => Some(i as int),
        None => None,
    }
}

/// The first place `part` stands in `whole`, if it does.
pub fn find(whole: &Vec<char>, part: &Vec<char>) -> (at: Option<usize>)
    ensures
        place(at) == first_place(whole@, part@, 0),
        at is Some <==> occurs(whole@, part@),
        at matches Some(i) ==> stands_at(whole@, part@, i as int) && forall|k: int|
            0 <= k < i ==> !stands_at(whole@, part@, k),
{
    let mut i: usize = 0;
    while i <= whole.len()
        invariant
            i <= whole@.len() + 1,
            first_place(whole@, part@, 0) == first_place(whole@, part@, i as int),
            forall|k: int| 0 <= k < i ==> !stands_at(whole@, part@, k),
        decreases whole.len() + 1 - i,
    {
        if matches_at(whole, i, part) {
            return Some(i);
        }
        if i == whole.len() {
            assert forall|k: int| !stands_at(whole@, part@, k) by {}
            assert(first_place(whole@, part@, i + 1) is None);
            return None;
        }
        i = i + 1;
    }
    None
}

/// The last place `part` stands in `whole`, if it does.
pub fn rfind(whole: &Vec<char>, part: &Vec<char>) -> (at: Option<usize>)
    ensures
        place(at) == last_place(whole@, part@, whole@.len() as int),
        at is Some <==> occurs(whole@, part@),
        at matches Some(i) ==> stands_at(whole@, part@, i as int) && forall|k: int|
            i < k ==> !stands_at(whole@, part@, k),
{
    let mut i: usize = whole.len();
    loop
        invariant
            i <= whole@.len(),
            last_place(whole@, part@, whole@.len() as int) == last_place(whole@, part@, i as int),
            forall|k: int| i < k ==> !stands_at(whole@, part@, k),
        decreases i,
    {
        if matches_at(whole, i, part) {
            return Some(i);
        }
        if i == 0 {
            assert forall|k: int| !stands_at(whole@, part@, k) by {}
            assert(last_place(whole@, part@, -1) is None);
            return None;
        }
        i = i - 1;
    }
}

/// Whether `part` occurs anywhere in `whole`.
pub fn contains(whole: &str, part: &str) -> (yes: bool)
    ensures
        yes == occurs(whole@, part@),
{
    find(&chars_of(whole), &chars_of(part)).is_some()
}

/// Whether `whole` begins with `part`.
pub open spec fn begins(whole: Seq<char>, part: Seq<char>) -> bool {
    stands_at(whole, part, 0)
}

/// Whether `whole` ends with `part`.
pub open spec fn ends(whole: Seq<char>, part: Seq<char>) -> bool {
    stands_at(whole, part, whole.len() - part.len())
}

pub fn starts_with(whole: &str, part: &str) -> (yes: bool)
    ensures
        yes == begins(whole@, part@),
{
    matches_at(&chars_of(whole), 0, &chars_of(part))
}

pub fn ends_with(whole: &str, part: &str) -> (yes: bool)
    ensures
        yes == ends(whole@, part@),
{
    let w = chars_of(whole);
    let p = chars_of(part);
    p.len() <= w.len() && matches_at(&w, w.len() - p.len(), &p)
}

/// The text before the first `stop`, or all of it where there is none.
pub open spec fn until(s: Seq<char>, stop: char) -> Seq<char>
    decreases s.len(),
{
    if s.len() == 0 || s[0] == stop {
        Seq::empty()
    } else {
        seq![s[0]] + until(s.drop_first(), stop)
    }
}

/// The text from character `from` up to the next `stop`, or to the end.
pub fn part_until(chars: &Vec<char>, from: usize, stop: char) -> (part: String)
    requires
        from <= chars@.len(),
    ensures
        part@ == until(chars@.skip(from as int), stop),
{
    let mut out = String::new();
    let mut i: usize = from;
    assert(out@ + until(chars@.skip(i as int), stop) =~= until(chars@.skip(from as int), stop));
    while i < chars.len() && chars[i] != stop
        invariant
            from <= i <= chars@.len(),
            out@ + until(chars@.skip(i as int), stop) == until(chars@.skip(from as int), stop),
        decreases chars.len() - i,
    {
        let ghost rest = chars@.skip(i as int);
        assert(rest.drop_first() =~= chars@.skip(i + 1));
        let ghost before = out@;
        out.push(chars[i]);
        assert(before + (seq![rest[0]] + until(rest.drop_first(), stop)) =~= out@ + until(
            chars@.skip(i + 1),
            stop,
        ));
        i = i + 1;
    }
    assert(out@ + Seq::<char>::empty() =~= out@);
    out
}

/// The characters Unicode counts as white space.
pub open spec fn white(c: char) -> bool {
    let n = c as u32;
    9 <= n <= 13 || n == 0x20 || n == 0x85 || n == 0xA0 || n == 0x1680 || 0x2000 <= n <= 0x200A || n
        == 0x2028 || n == 0x2029 || n == 0x202F || n == 0x205F || n == 0x3000
}

pub fn is_white(c: char) -> (yes: bool)
    ensures
        yes == white(c),
{
    let n: u32 = c as u32;
    (9 <= n && n <= 13) || n == 0x20 || n == 0x85 || n == 0xA0 || n == 0x1680 || (0x2000 <= n && n
        <= 0x200A) || n == 0x2028 || n == 0x2029 || n == 0x202F || n == 0x205F || n == 0x3000
}

/// The text without white space at its end.
pub open spec fn trim_end_spec(s: Seq<char>) -> Seq<char>
    decreases s.len(),
{
    if s.len() > 0 && white(s.last()) {
        trim_end_spec(s.drop_last())
    } else {
        s
    }
}

/// The text without white space at its start.
pub open spec fn trim_start_spec(s: Seq<char>) -> Seq<char>
    decreases s.len(),
{
    if s.len() > 0 && white(s[0]) {
        trim_start_spec(s.drop_first())
    } else {
        s
    }
}

/// The text without white space at either end.
pub open spec fn trim_spec(s: Seq<char>) -> Seq<char> {
    trim_end_spec(trim_start_spec(s))
}

pub fn trim_end(s: &str) -> (trimmed: String)
    ensures
        trimmed@ == trim_end_spec(s@),
{
    let chars = chars_of(s);
    let mut to: usize = chars.len();
    assert(chars@.take(to as int) =~= s@);
    while to > 0 && is_white(chars[to - 1])
        invariant
            to <= chars@.len(),
            trim_end_spec(chars@.take(to as int)) == trim_end_spec(s@),
        decreases to,
    {
        assert(chars@.take(to as int).drop_last() =~= chars@.take(to - 1));
        to = to - 1;
    }
    assert(chars@.subrange(0, to as int) =~= chars@.take(to as int));
    string_of(&chars, 0, to)
}

pub fn trim(s: &str) -> (trimmed: String)
    ensures
        trimmed@ == trim_spec(s@),
{
    let chars = chars_of(s);
    let mut from: usize = 0;
    assert(chars@.skip(0) =~= s@);
    while from < chars.len() && is_white(chars[from])
        invariant
            from <= chars@.len(),
            trim_start_spec(chars@.skip(from as int)) == trim_start_spec(s@),
        decreases chars.len() - from,
    {
        assert(chars@.skip(from as int).drop_first() =~= chars@.skip(from + 1));
        from = from + 1;
    }
    assert(chars@.subrange(from as int, chars@.len() as int) =~= chars@.skip(from as int));
    let rest = string_of(&chars, from, chars.len());
    trim_end(rest.as_str())
}

/// An ASCII capital as its small letter; anything else as it is.
pub open spec fn lower(c: char) -> char {
    if 'A' <= c <= 'Z' { ((c as u8) + 32) as u8 as char } else { c }
}

/// An ASCII small letter as its capital; anything else as it is.
pub open spec fn upper(c: char) -> char {
    if 'a' <= c <= 'z' { ((c as u8) - 32) as u8 as char } else { c }
}

pub open spec fn lower_all(s: Seq<char>) -> Seq<char> {
    s.map_values(|c: char| lower(c))
}

pub open spec fn upper_all(s: Seq<char>) -> Seq<char> {
    s.map_values(|c: char| upper(c))
}

pub fn ascii_lowercase(s: &str) -> (t: String)
    ensures
        t@ == lower_all(s@),
{
    let chars = chars_of(s);
    let mut out = String::new();
    let mut i: usize = 0;
    while i < chars.len()
        invariant
            i <= chars@.len(),
            out@ == lower_all(chars@).take(i as int),
        decreases chars.len() - i,
    {
        let c: char = chars[i];
        if 'A' <= c && c <= 'Z' {
            out.push(((c as u8) + 32) as char);
        } else {
            out.push(c);
        }
        i = i + 1;
        assert(lower_all(chars@).take(i as int) =~= lower_all(chars@).take(i - 1).push(
            lower(chars@[i - 1]),
        ));
    }
    assert(lower_all(chars@).take(i as int) =~= lower_all(chars@));
    out
}

pub fn ascii_uppercase(s: &str) -> (t: String)
    ensures
        t@ == upper_all(s@),
{
    let chars = chars_of(s);
    let mut out = String::new();
    let mut i: usize = 0;
    while i < chars.len()
        invariant
            i <= chars@.len(),
            out@ == upper_all(chars@).take(i as int),
        decreases chars.len() - i,
    {
        let c: char = chars[i];
        if 'a' <= c && c <= 'z' {
            out.push(((c as u8) - 32) as char);
        } else {
            out.push(c);
        }
        i = i + 1;
        assert(upper_all(chars@).take(i as int) =~= upper_all(chars@).take(i - 1).push(
            upper(chars@[i - 1]),
        ));
    }
    assert(upper_all(chars@).take(i as int) =~= upper_all(chars@));
    out
}

/// The decimal digit of a number below ten.
pub open spec fn digit(d: nat) -> char {
    ((48 + d) as u8) as char
}

/// A number in decimal, without leading zeros.
pub open spec fn decimal_spec(n: nat) -> Seq<char>
    decreases n,
{
    if n < 10 {
        seq![digit(n)]
    } else {
        decimal_spec(n / 10).push(digit(n % 10))
    }
}

pub fn decimal(n: u64) -> (s: String)
    ensures
        s@ == decimal_spec(n as nat),
    decreases n,
{
    if n < 10 {
        let mut s = String::new();
        s.push((48 + n as u8) as char);
        assert(s@ =~= decimal_spec(n as nat));
        s
    } else {
        let mut s = decimal(n / 10);
        s.push((48 + (n % 10) as u8) as char);
        s
    }
}

/// A signed number in decimal, negative ones with a minus sign.
pub open spec fn signed_decimal_spec(n: int) -> Seq<char> {
    if n < 0 { seq!['-'] + decimal_spec((-n) as nat) } else { decimal_spec(n as nat) }
}

pub fn signed_decimal(n: i64) -> (s: String)
    ensures
        s@ == signed_decimal_spec(n as int),
{
    if n < 0 {
        let mut s = String::new();
        s.push('-');
        let magnitude: u64 = (-(n as i128)) as u64;
        let digits = decimal(magnitude);
        s.append(digits.as_str());
        assert(s@ =~= signed_decimal_spec(n as int));
        s
    } else {
        decimal(n as u64)
    }
}

pub open spec fn is_digit(c: char) -> bool {
    '0' <= c <= '9'
}

pub open spec fn all_digits(s: Seq<char>) -> bool {
    forall|i: int| 0 <= i < s.len() ==> is_digit(#[trigger] s[i])
}

/// The number a run of decimal digits spells.
pub open spec fn value_of(s: Seq<char>) -> nat
    decreases s.len(),
{
    if s.len() == 0 {
        0
    } else {
        10 * value_of(s.drop_last()) + (s.last() as u32 - 48) as nat
    }
}

/// The unsigned number a text spells: digits, at least one, after an optional plus sign.
pub open spec fn number_spec(s: Seq<char>) -> Option<nat> {
    let digits = if s.len() > 0 && s[0] == '+' { s.skip(1) } else { s };
    if digits.len() > 0 && all_digits(digits) { Some(value_of(digits)) } else { None }
}

/// Parses an unsigned number; nothing for a text that does not spell one, or one too large to
/// hold.
pub fn parse_usize(s: &str) -> (n: Option<usize>)
    ensures
        match number_spec(s@) {
            Some(v) => if v <= usize::MAX { n == Some(v as usize) } else { n is None },
            None => n is None,
        },
{
    let chars = chars_of(s);
    let start: usize = if chars.len() > 0 && chars[0] == '+' { 1 } else { 0 };
    let ghost digits = s@.skip(start as int);
    assert(start == 0 ==> digits =~= s@);
    if start == chars.len() {
        return None;
    }
    let mut i: usize = start;
    let mut n: usize = 0;
    let mut fits: bool = true;
    while i < chars.len()
        invariant
            start <= i <= chars@.len(),
            chars@ == s@,
            digits == s@.skip(start as int),
            digits.len() == s@.len() - start,
            number_spec(s@) == if all_digits(digits) { Some(value_of(digits)) } else { None },
            forall|k: int| 0 <= k < i - start ==> is_digit(#[trigger] digits[k]),
            fits ==> n == value_of(digits.take(i - start)),
            !fits ==> value_of(digits.take(i - start)) > usize::MAX,
        decreases chars.len() - i,
    {
        let c: char = chars[i];
        assert(digits[i - start] == c);
        if !('0' <= c && c <= '9') {
            assert(!is_digit(digits[i - start]));
            return None;
        }
        let d: usize = (c as u32 - 48) as usize;
        assert(digits.take(i - start + 1).drop_last() =~= digits.take(i - start));
        if fits {
            if n > usize::MAX / 10 || (n == usize::MAX / 10 && d > usize::MAX % 10) {
                fits = false;
            } else {
                n = 10 * n + d;
            }
        }
        i = i + 1;
    }
    assert(digits.take(i - start) =~= digits);
    if fits { Some(n) } else { None }
}

/// Dictionary order by character code: whether `a` comes strictly before `b`.
pub open spec fn precedes(a: Seq<char>, b: Seq<char>) -> bool
    decreases a.len(),
{
    if b.len() == 0 {
        false
    } else if a.len() == 0 {
        true
    } else if a[0] != b[0] {
        a[0] < b[0]
    } else {
        precedes(a.drop_first(), b.drop_first())
    }
}

pub fn before(a: &str, b: &str) -> (yes: bool)
    ensures
        yes == precedes(a@, b@),
{
    let x = chars_of(a);
    let y = chars_of(b);
    let mut i: usize = 0;
    assert(x@.skip(0) =~= a@);
    assert(y@.skip(0) =~= b@);
    while i < x.len() && i < y.len() && x[i] == y[i]
        invariant
            i <= x@.len(),
            i <= y@.len(),
            precedes(x@.skip(i as int), y@.skip(i as int)) == precedes(a@, b@),
        decreases x.len() - i,
    {
        assert(x@.skip(i as int).drop_first() =~= x@.skip(i + 1));
        assert(y@.skip(i as int).drop_first() =~= y@.skip(i + 1));
        i = i + 1;
    }
    if i == y.len() {
        false
    } else if i == x.len() {
        true
    } else {
        x[i] < y[i]
    }
}

/// Two texts are equal, or exactly one of them comes first.
pub proof fn lemma_order_is_total(a: Seq<char>, b: Seq<char>)
    ensures
        !(precedes(a, b) && precedes(b, a)),
        !precedes(a, b) && !precedes(b, a) ==> a == b,
        a == b ==> !precedes(a, b),
    decreases a.len(),
{
    if a.len() == 0 || b.len() == 0 {
        if a.len() == 0 && b.len() == 0 {
            assert(a =~= b);
        }
    } else if a[0] == b[0] {
        lemma_order_is_total(a.drop_first(), b.drop_first());
        if a.drop_first() == b.drop_first() {
            assert(a =~= seq![a[0]] + a.drop_first());
            assert(b =~= seq![b[0]] + b.drop_first());
        }
    }
}

pub proof fn lemma_order_is_transitive(a: Seq<char>, b: Seq<char>, c: Seq<char>)
    requires
        !precedes(b, a),
        !precedes(c, b),
    ensures
        !precedes(c, a),
    decreases a.len(),
{
    if a.len() > 0 && b.len() > 0 && c.len() > 0 && a[0] == b[0] && b[0] == c[0] {
        lemma_order_is_transitive(a.drop_first(), b.drop_first(), c.drop_first());
    }
}

/// The texts in turn with a separator between each two.
pub open spec fn joined_spec(parts: Seq<Seq<char>>, sep: Seq<char>) -> Seq<char>
    decreases parts.len(),
{
    if parts.len() == 0 {
        Seq::empty()
    } else if parts.len() == 1 {
        parts[0]
    } else {
        joined_spec(parts.drop_last(), sep) + sep + parts.last()
    }
}

/// The views of a list of texts.
pub open spec fn views(parts: Seq<String>) -> Seq<Seq<char>> {
    parts.map_values(|s: String| s@)
}

pub fn join(parts: &Vec<String>, sep: &str) -> (s: String)
    ensures
        s@ == joined_spec(views(parts@), sep@),
{
    let mut out = String::new();
    let mut i: usize = 0;
    while i < parts.len()
        invariant
            i <= parts@.len(),
            out@ == joined_spec(views(parts@).take(i as int), sep@),
        decreases parts.len() - i,
    {
        if i > 0 {
            out.append(sep);
        }
        out.append(parts[i].as_str());
        i = i + 1;
        assert(views(parts@).take(i as int).drop_last() =~= views(parts@).take(i - 1));
        assert(out@ =~= joined_spec(views(parts@).take(i as int), sep@));
    }
    assert(views(parts@).take(i as int) =~= views(parts@));
    out
}

/// Whether a list of texts holds one.
pub open spec fn listed(list: Seq<String>, name: Seq<char>) -> bool {
    views(list).contains(name)
}

pub fn is_listed(list: &Vec<String>, name: &str) -> (yes: bool)
    ensures
        yes == listed(list@, name@),
{
    let mut i: usize = 0;
    while i < list.len()
        invariant
            i <= list@.len(),
            forall|k: int| 0 <= k < i ==> #[trigger] views(list@)[k] != name@,
        decreases list.len() - i,
    {
        if same(list[i].as_str(), name) {
            assert(views(list@)[i as int] == name@);
            return true;
        }
        i = i + 1;
    }
    false
}

/// Each text no later than those after it.
pub open spec fn ascending(parts: Seq<Seq<char>>) -> bool {
    forall|i: int, j: int| 0 <= i < j < parts.len() ==> !precedes(parts[j], parts[i])
}

/// A text put into an ascending list, before the first that it does not come after.
pub open spec fn placed(parts: Seq<Seq<char>>, part: Seq<char>) -> Seq<Seq<char>>
    decreases parts.len(),
{
    if parts.len() == 0 || !precedes(part, parts.last()) {
        parts.push(part)
    } else {
        placed(parts.drop_last(), part).push(parts.last())
    }
}

/// The texts in ascending order.
pub open spec fn sorted_spec(parts: Seq<Seq<char>>) -> Seq<Seq<char>>
    decreases parts.len(),
{
    if parts.len() == 0 {
        parts
    } else {
        placed(sorted_spec(parts.drop_last()), parts.last())
    }
}

proof fn lemma_placed(parts: Seq<Seq<char>>, part: Seq<char>)
    requires
        ascending(parts),
    ensures
        ascending(placed(parts, part)),
        placed(parts, part).to_multiset() == parts.push(part).to_multiset(),
        placed(parts, part).len() == parts.len() + 1,
    decreases parts.len(),
{
    broadcast use vstd::seq_lib::group_to_multiset_ensures;

    if parts.len() == 0 {
    } else if !precedes(part, parts.last()) {
        assert forall|i: int, j: int| 0 <= i < j < parts.len() + 1 implies !precedes(
            parts.push(part)[j],
            parts.push(part)[i],
        ) by {
            if j == parts.len() && i < parts.len() - 1 {
                lemma_order_is_transitive(parts[i], parts.last(), part);
            }
        }
    } else {
        let rest = parts.drop_last();
        lemma_placed(rest, part);
        let p = placed(rest, part);
        assert(parts =~= rest.push(parts.last()));
        assert forall|i: int, j: int| 0 <= i < j < p.push(parts.last()).len() implies !precedes(
            p.push(parts.last())[j],
            p.push(parts.last())[i],
        ) by {
            if j == p.len() {
                assert(p.to_multiset().count(p[i]) > 0);
                assert(rest.push(part).to_multiset().count(p[i]) > 0);
                assert(rest.push(part).contains(p[i]));
                let k = choose|k: int| 0 <= k < rest.push(part).len() && rest.push(part)[k] == p[i];
                if k < rest.len() {
                    assert(parts[k] == p[i]);
                } else {
                    lemma_order_is_total(part, parts.last());
                }
            }
        }
    }
}

/// Sorting gives the same texts, each as often, in ascending order.
pub proof fn lemma_sorted(parts: Seq<Seq<char>>)
    ensures
        ascending(sorted_spec(parts)),
        sorted_spec(parts).to_multiset() == parts.to_multiset(),
        sorted_spec(parts).len() == parts.len(),
    decreases parts.len(),
{
    broadcast use vstd::seq_lib::group_to_multiset_ensures;

    if parts.len() > 0 {
        let rest = parts.drop_last();
        lemma_sorted(rest);
        lemma_placed(sorted_spec(rest), parts.last());
        assert(parts =~= rest.push(parts.last()));
    }
}

/// Sorts texts into ascending order.
pub fn sorted(parts: Vec<String>) -> (out: Vec<String>)
    ensures
        views(out@) == sorted_spec(views(parts@)),
        ascending(views(out@)),
        views(out@).to_multiset() == views(parts@).to_multiset(),
{
    let mut out: Vec<String> = Vec::new();
    let mut i: usize = 0;
    assert(views(out@) =~= sorted_spec(views(parts@).take(0)));
    while i < parts.len()
        invariant
            i <= parts@.len(),
            out@.len() == i,
            views(out@) == sorted_spec(views(parts@).take(i as int)),
        decreases parts.len() - i,
    {
        let part = parts[i].clone();
        let ghost whole = views(out@);
        let mut at: usize = out.len();
        assert(whole.take(at as int) =~= whole);
        assert(placed(whole.take(at as int), part@) + whole.skip(at as int) =~= placed(
            whole,
            part@,
        ));
        while at > 0 && before(part.as_str(), out[at - 1].as_str())
            invariant
                at <= out@.len(),
                whole == views(out@),
                placed(whole.take(at as int), part@) + whole.skip(at as int) == placed(
                    whole,
                    part@,
                ),
            decreases at,
        {
            assert(whole.take(at as int).drop_last() =~= whole.take(at - 1));
            assert(placed(whole.take(at - 1), part@).push(whole[at - 1]) + whole.skip(at as int)
                =~= placed(whole.take(at - 1), part@) + whole.skip(at - 1));
            at = at - 1;
        }
        out.insert(at, part);
        assert(views(out@) =~= whole.take(at as int).push(part@) + whole.skip(at as int));
        i = i + 1;
        assert(views(parts@).take(i as int).drop_last() =~= views(parts@).take(i - 1));
    }
    assert(views(parts@).take(i as int) =~= views(parts@));
    proof {
        lemma_sorted(views(parts@));
    }
    out
}

/// The quoted and escaped form a text is shown in when it is printed for debugging.
pub uninterp spec fn debug_quoted(s: Seq<char>) -> Seq<char>;

/// The `Debug` form of a `str` of the standard library, which is a function of the text alone.
#[verifier::external_body]
pub(crate) fn debug_text(s: &str) -> (quoted: String)
    ensures
        quoted@ == debug_quoted(s@),
{
    format!("{:?}", s)
}

/// A number written in decimal is read back: it is all digits, none of them a leading zero, each
/// counting ten times the one behind it.
pub proof fn law_a_decimal_reads_back(n: nat)
    ensures
        number_spec(decimal_spec(n)) == Some(n),
        value_of(decimal_spec(n)) == n,
        decimal_spec(n).len() > 0,
        forall|i: int| 0 <= i < decimal_spec(n).len() ==> '0' <= #[trigger] decimal_spec(n)[i] <= '9',
        n < 10 ==> decimal_spec(n).len() == 1 && decimal_spec(n)[0] as u32 == 48 + n,
        n >= 10 ==> decimal_spec(n) == decimal_spec(n / 10).push(decimal_spec(n % 10)[0])
            && decimal_spec(n)[0] != '0',
        n > 0 ==> decimal_spec(n)[0] != '0',
    decreases n,
{
    if n < 10 {
        assert(digit(n) as u32 == 48 + n);
        assert(decimal_spec(n).drop_last() =~= Seq::empty());
        assert(value_of(decimal_spec(n).drop_last()) == 0);
        assert(decimal_spec(n).last() == digit(n));
    } else {
        law_a_decimal_reads_back(n / 10);
        let whole = decimal_spec(n);
        let d = n % 10;
        assert(digit(d) as u32 == 48 + d);
        assert(whole.drop_last() =~= decimal_spec(n / 10));
        assert(whole.last() == digit(d));
        assert(n == 10 * (n / 10) + d);
        assert(whole[0] == decimal_spec(n / 10)[0]);
        assert forall|i: int| 0 <= i < whole.len() implies '0' <= #[trigger] whole[i] <= '9' by {
            if i < whole.len() - 1 {
                assert(whole[i] == decimal_spec(n / 10)[i]);
            }
        }
    }
    assert(all_digits(decimal_spec(n)));
}

/// A run of digits is worth ten times what it is without its last one, and that digit.
pub proof fn law_digits_count_by_tens(s: Seq<char>, c: char)
    requires
        '0' <= c <= '9',
    ensures
        value_of(s.push(c)) == 10 * value_of(s) + (c as u32 - '0' as u32),
        value_of(Seq::empty()) == 0,
{
    assert(s.push(c).drop_last() =~= s);
}

/// A search finds the first place, or the last, and finds none only where there is none.
pub proof fn law_a_search_finds_the_nearest(whole: Seq<char>, part: Seq<char>, from: int)
    requires
        0 <= from <= whole.len(),
    ensures
        match first_place(whole, part, from) {
            Some(at) => from <= at && stands_at(whole, part, at) && forall|k: int|
                from <= k < at ==> !stands_at(whole, part, k),
            None => forall|k: int| from <= k ==> !stands_at(whole, part, k),
        },
        match last_place(whole, part, from) {
            Some(at) => at <= from && stands_at(whole, part, at) && forall|k: int|
                at < k <= from ==> !stands_at(whole, part, k),
            None => forall|k: int| k <= from ==> !stands_at(whole, part, k),
        },
{
    lemma_first_from(whole, part, from);
    lemma_last_from(whole, part, from);
}

proof fn lemma_first_from(whole: Seq<char>, part: Seq<char>, from: int)
    requires
        0 <= from <= whole.len() + 1,
    ensures
        match first_place(whole, part, from) {
            Some(at) => from <= at && stands_at(whole, part, at) && forall|k: int|
                from <= k < at ==> !stands_at(whole, part, k),
            None => forall|k: int| from <= k ==> !stands_at(whole, part, k),
        },
    decreases whole.len() + 1 - from,
{
    if from <= whole.len() && !stands_at(whole, part, from) {
        lemma_first_from(whole, part, from + 1);
    }
}

proof fn lemma_last_from(whole: Seq<char>, part: Seq<char>, from: int)
    ensures
        match last_place(whole, part, from) {
            Some(at) => at <= from && stands_at(whole, part, at) && forall|k: int|
                at < k <= from ==> !stands_at(whole, part, k),
            None => forall|k: int| k <= from ==> !stands_at(whole, part, k),
        },
    decreases from + 1,
{
    if from >= 0 && !stands_at(whole, part, from) {
        lemma_last_from(whole, part, from - 1);
    }
}

/// What stands before the first stop holds no stop, and the stop or the end comes behind it.
pub proof fn law_until_stops_at_the_first(s: Seq<char>, stop: char)
    ensures
        !until(s, stop).contains(stop),
        until(s, stop).len() <= s.len(),
        until(s, stop) == s.take(until(s, stop).len() as int),
        until(s, stop) == s || s[until(s, stop).len() as int] == stop,
    decreases s.len(),
{
    let u = until(s, stop);
    if s.len() > 0 && s[0] != stop {
        let rest = s.drop_first();
        law_until_stops_at_the_first(rest, stop);
        let v = until(rest, stop);
        assert(u =~= s.take(u.len() as int)) by {
            assert forall|i: int| 0 <= i < u.len() implies u[i] == s[i] by {
                if i > 0 {
                    assert(u[i] == v[i - 1] && v[i - 1] == rest.take(v.len() as int)[i - 1]);
                }
            }
        }
        if u.contains(stop) {
            let k = choose|k: int| 0 <= k < u.len() && u[k] == stop;
            assert(v[k - 1] == stop);
        }
        if v == rest {
            assert(u =~= s);
        } else {
            if v.len() == rest.len() {
                assert(v =~= rest);
            }
            assert(s[u.len() as int] == rest[v.len() as int]);
        }
    } else if s.len() == 0 {
        assert(u =~= s);
    } else {
        assert(u =~= s.take(0));
    }
}

pub open spec fn all_white(s: Seq<char>) -> bool {
    forall|i: int| 0 <= i < s.len() ==> white(#[trigger] s[i])
}

/// Trimming takes the white space at both ends, all of it and nothing else; of ASCII characters
/// the space and the five from tab to carriage return are white.
pub proof fn law_trimming_takes_the_ends(left: Seq<char>, s: Seq<char>, right: Seq<char>, c: char)
    requires
        all_white(left),
        all_white(right),
        s.len() > 0 ==> !white(s[0]) && !white(s.last()),
    ensures
        trim_spec(left + s + right) == s,
        trim_end_spec(s + right) == s,
        (c as u32) < 128 ==> white(c) == (c == ' ' || 9 <= c as u32 <= 13),
    decreases left.len() + right.len(),
{
    if right.len() > 0 {
        law_trimming_takes_the_ends(Seq::empty(), s, right.drop_last(), c);
        assert((s + right).drop_last() =~= s + right.drop_last());
        assert(white(right[right.len() - 1]));
    } else {
        assert(s + right =~= s);
    }
    if left.len() > 0 {
        assert(white(left[0]));
        let rest = left.drop_first();
        assert(all_white(rest)) by {
            assert forall|i: int| 0 <= i < rest.len() implies white(#[trigger] rest[i]) by {
                assert(rest[i] == left[i + 1]);
            }
        }
        law_trimming_takes_the_ends(rest, s, right, c);
        assert((left + s + right).drop_first() =~= rest + s + right);
    } else {
        assert(left + s + right =~= s + right);
        if s.len() > 0 {
            assert((s + right)[0] == s[0]);
        } else {
            lemma_all_white(s + right);
        }
    }
}

proof fn lemma_all_white(s: Seq<char>)
    requires
        all_white(s),
    ensures
        trim_start_spec(s).len() == 0,
    decreases s.len(),
{
    if s.len() > 0 {
        assert(white(s[0]));
        let rest = s.drop_first();
        assert forall|i: int| 0 <= i < rest.len() implies white(#[trigger] rest[i]) by {
            assert(rest[i] == s[i + 1]);
        }
        lemma_all_white(rest);
    }
}

/// The case of the 26 letters is changed, by 32 places, and of nothing else; a text keeps its
/// length, and every character its place.
pub proof fn law_only_letters_change_their_case(s: Seq<char>, i: int)
    requires
        0 <= i < s.len(),
    ensures
        lower_all(s).len() == s.len(),
        upper_all(s).len() == s.len(),
        lower_all(s)[i] as u32 == if 'A' <= s[i] <= 'Z' {
            s[i] as u32 + 32
        } else {
            s[i] as int
        },
        upper_all(s)[i] as u32 == if 'a' <= s[i] <= 'z' {
            s[i] as u32 - 32
        } else {
            s[i] as int
        },
{
}

/// Order goes by the first character in which two texts differ; a text comes before every longer
/// one that begins with it.
pub proof fn law_order_goes_by_the_first_difference(
    head: Seq<char>,
    a: Seq<char>,
    b: Seq<char>,
    x: char,
    y: char,
)
    ensures
        x != y ==> precedes(head + seq![x] + a, head + seq![y] + b) == (x < y),
        precedes(head, head + seq![x] + a),
        !precedes(head + seq![x] + a, head),
    decreases head.len(),
{
    let (p, q) = (head + seq![x] + a, head + seq![y] + b);
    if head.len() > 0 {
        let rest = head.drop_first();
        law_order_goes_by_the_first_difference(rest, a, b, x, y);
        assert(p.drop_first() =~= rest + seq![x] + a);
        assert(q.drop_first() =~= rest + seq![y] + b);
        assert(p[0] == head[0] && q[0] == head[0]);
    } else {
        assert(p[0] == x && q[0] == y);
    }
}

/// Joined texts stand one after another with the separator between each two, and nowhere else.
pub proof fn law_joined_texts_stand_in_turn(
    parts: Seq<Seq<char>>,
    last: Seq<char>,
    sep: Seq<char>,
)
    ensures
        joined_spec(Seq::empty(), sep) == Seq::<char>::empty(),
        joined_spec(parts.push(last), sep) == if parts.len() == 0 {
            last
        } else {
            joined_spec(parts, sep) + sep + last
        },
{
    assert(parts.push(last).drop_last() =~= parts);
}

/// A number is spelled by digits alone, one at least, with a plus sign before them or none.
pub proof fn law_only_digits_spell_a_number(s: Seq<char>)
    ensures
        ({
            let from: int = if s.len() > 0 && s[0] == '+' { 1 } else { 0 };
            number_spec(s) is Some <==> s.len() > from && forall|i: int|
                from <= i < s.len() ==> '0' <= #[trigger] s[i] <= '9'
        }),
        s.len() == 0 || s[0] != '+' ==> number_spec(seq!['+'] + s) == number_spec(s),
{
    assert((seq!['+'] + s).skip(1) =~= s);
    if s.len() > 0 && s[0] == '+' {
        let digits = s.skip(1);
        if number_spec(s) is Some {
            assert forall|i: int| 1 <= i < s.len() implies '0' <= #[trigger] s[i] <= '9' by {
                assert(is_digit(digits[i - 1]));
            }
        }
        if s.len() > 1 && forall|i: int| 1 <= i < s.len() ==> '0' <= #[trigger] s[i] <= '9' {
            assert forall|i: int| 0 <= i < digits.len() implies is_digit(#[trigger] digits[i]) by {
                assert('0' <= s[i + 1] <= '9');
            }
        }
    } else if number_spec(s) is Some {
        assert forall|i: int| 0 <= i < s.len() implies '0' <= #[trigger] s[i] <= '9' by {
            assert(is_digit(s[i]));
        }
    } else if s.len() > 0 && forall|i: int| 0 <= i < s.len() ==> '0' <= #[trigger] s[i] <= '9' {
        assert forall|i: int| 0 <= i < s.len() implies is_digit(#[trigger] s[i]) by {}
    }
}

/// The white space characters are the twenty-five that Unicode has.
pub proof fn law_white_space_is_what_unicode_has(c: char)
    ensures
        white(c) <==> seq![
            '\t', '\n', '\u{b}', '\u{c}', '\r', ' ', '\u{85}', '\u{a0}', '\u{1680}', '\u{2000}',
            '\u{2001}', '\u{2002}', '\u{2003}', '\u{2004}', '\u{2005}', '\u{2006}', '\u{2007}',
            '\u{2008}', '\u{2009}', '\u{200a}', '\u{2028}', '\u{2029}', '\u{202f}', '\u{205f}',
            '\u{3000}',
        ].contains(c),
{
    let all = seq![
        '\t', '\n', '\u{b}', '\u{c}', '\r', ' ', '\u{85}', '\u{a0}', '\u{1680}', '\u{2000}',
        '\u{2001}', '\u{2002}', '\u{2003}', '\u{2004}', '\u{2005}', '\u{2006}', '\u{2007}',
        '\u{2008}', '\u{2009}', '\u{200a}', '\u{2028}', '\u{2029}', '\u{202f}', '\u{205f}',
        '\u{3000}',
    ];
    let n = c as u32 as int;
    if white(c) {
        let k = if n <= 13 {
            n - 9
        } else if n == 0x20 {
            5
        } else if n == 0x85 {
            6
        } else if n == 0xA0 {
            7
        } else if n == 0x1680 {
            8
        } else if n <= 0x200A {
            n - 0x2000 + 9
        } else if n == 0x2028 {
            20
        } else if n == 0x2029 {
            21
        } else if n == 0x202F {
            22
        } else if n == 0x205F {
            23
        } else {
            24
        };
        assert(all[k] == c);
    }
}

/// A number below nought is spelled as the one above it, behind a minus sign.
pub proof fn law_a_sign_stands_before_the_digits(n: nat)
    ensures
        signed_decimal_spec(n as int) == decimal_spec(n),
        n > 0 ==> signed_decimal_spec(-(n as int)) == "-"@ + decimal_spec(n),
{
    reveal_strlit("-");
    assert("-"@ =~= seq!['-']);
}

} // verus!
