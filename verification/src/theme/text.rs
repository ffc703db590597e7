//! Text helpers shared by the theme modules: paths, lists and numbers.
use vstd::prelude::*;

verus! {

/// The characters of each string of a list.
pub open spec fn texts(list: Seq<String>) -> Seq<Seq<char>> {
    list.map_values(|s: String| s@)
}

/// `leaf` placed under `dir`, with one `/` between them.
pub open spec fn join_path(dir: Seq<char>, leaf: Seq<char>) -> Seq<char> {
    dir + seq!['/'] + leaf
}

/// Builds the path of `leaf` under `dir`.
pub fn join(dir: &str, leaf: &str) -> (path: String)
    ensures
        path@ == join_path(dir@, leaf@),
{
    let mut path = String::from_str(dir);
    proof {
        reveal_strlit("/");
        assert("/"@ =~= seq!['/']);
    }
    path.append("/");
    path.append(leaf);
    path
}

/// Whether `list` holds a string with the characters of `item`.
pub fn contains_text(list: &Vec<String>, item: &str) -> (found: bool)
    ensures
        found == texts(list@).contains(item@),
{
    let wanted = String::from_str(item);
    let mut i: usize = 0;
    while i < list.len()
        invariant
            i <= list.len(),
            wanted@ == item@,
            forall|j: int| 0 <= j < i ==> texts(list@)[j] != item@,
        decreases list.len() - i,
    {
        if list[i] == wanted {
            assert(texts(list@)[i as int] == item@);
            return true;
        }
        i += 1;
    }
    false
}

/// The characters of `s`, one by one.
pub fn chars_of(s: &str) -> (chars: Vec<char>)
    ensures
        chars@ == s@,
{
    let mut chars: Vec<char> = Vec::new();
    for c in it: s.chars()
        invariant
            it.seq() == s@,
            chars@ == s@.take(it.index() as int),
    {
        chars.push(c);
    }
    chars
}

/// The pieces of `s` between separators: a separator starts a new piece,
/// every other character extends the last one. There is always at least
/// one piece, and a piece may be empty.
pub open spec fn split_at_each(s: Seq<char>, separator: char) -> Seq<Seq<char>>
    decreases s.len(),
{
    if s.len() == 0 {
        seq![Seq::empty()]
    } else {
        let before = split_at_each(s.drop_last(), separator);
        if s.last() == separator {
            before.push(Seq::empty())
        } else {
            before.drop_last().push(before.last().push(s.last()))
        }
    }
}

/// Splitting always yields at least one piece.
pub proof fn lemma_split_has_pieces(s: Seq<char>, separator: char)
    ensures
        split_at_each(s, separator).len() >= 1,
    decreases s.len(),
{
    if s.len() > 0 {
        lemma_split_has_pieces(s.drop_last(), separator);
    }
}

/// Text without a separator that follows `s` extends the last piece of `s`.
pub proof fn lemma_split_extends(s: Seq<char>, more: Seq<char>, separator: char)
    requires
        forall|i: int| 0 <= i < more.len() ==> more[i] != separator,
    ensures
        split_at_each(s, separator).len() >= 1,
        split_at_each(s + more, separator) == split_at_each(s, separator).drop_last().push(
            split_at_each(s, separator).last() + more,
        ),
    decreases more.len(),
{
    lemma_split_has_pieces(s, separator);
    let pieces = split_at_each(s, separator);
    if more.len() == 0 {
        assert(s + more =~= s);
        assert(pieces.last() + more =~= pieces.last());
        assert(pieces.drop_last().push(pieces.last()) =~= pieces);
    } else {
        lemma_split_extends(s, more.drop_last(), separator);
        assert((s + more).drop_last() =~= s + more.drop_last());
        assert((s + more).last() == more.last());
        let before = split_at_each(s + more.drop_last(), separator);
        assert(before.drop_last() =~= pieces.drop_last());
        assert(before.last().push(more.last()) =~= pieces.last() + more);
    }
}

/// Splits `s` at every `separator`.
pub fn split(s: &str, separator: char) -> (pieces: Vec<String>)
    ensures
        texts(pieces@) == split_at_each(s@, separator),
{
    let chars = chars_of(s);
    let mut pieces: Vec<String> = Vec::new();
    let mut start: usize = 0;
    let mut i: usize = 0;
    proof {
        assert(s@.take(0) =~= Seq::<char>::empty());
        assert(texts(pieces@).push(s@.subrange(0, 0)) =~= seq![Seq::<char>::empty()]);
    }
    while i < chars.len()
        invariant
            chars@ == s@,
            start <= i <= chars.len(),
            split_at_each(s@.take(i as int), separator) == texts(pieces@).push(
                s@.subrange(start as int, i as int),
            ),
        decreases chars.len() - i,
    {
        proof {
            let longer = s@.take(i + 1);
            assert(longer.drop_last() =~= s@.take(i as int));
            assert(longer.last() == s@[i as int]);
            let before = split_at_each(s@.take(i as int), separator);
            assert(before.drop_last() =~= texts(pieces@));
            assert(s@.subrange(start as int, i as int).push(s@[i as int]) =~= s@.subrange(
                start as int,
                i + 1,
            ));
        }
        if chars[i] == separator {
            let piece = String::from_str(s.substring_char(start, i));
            let ghost earlier = texts(pieces@);
            pieces.push(piece);
            start = i + 1;
            proof {
                assert(texts(pieces@) =~= earlier.push(piece@));
                assert(s@.subrange(i + 1, i + 1) =~= Seq::<char>::empty());
            }
        }
        i += 1;
    }
    let piece = String::from_str(s.substring_char(start, i));
    proof {
        assert(s@.take(i as int) =~= s@);
        assert(texts(pieces@.push(piece)) =~= texts(pieces@).push(piece@));
    }
    pieces.push(piece);
    pieces
}

/// Whether `n` is where the part of `s` before the first `stop` ends: no
/// `stop` comes before `n`, and `s` ends at `n` or holds `stop` there.
pub open spec fn stops_at(s: Seq<char>, stop: char, n: int) -> bool {
    &&& 0 <= n <= s.len()
    &&& forall|i: int| 0 <= i < n ==> s[i] != stop
    &&& n < s.len() ==> s[n] == stop
}

/// The part of `s` before its first `stop`; all of `s` where it holds none.
pub open spec fn leading_part(s: Seq<char>, stop: char) -> Seq<char> {
    s.take(choose|n: int| stops_at(s, stop, n))
}

/// Cuts `s` off before its first `stop`.
pub fn leading(s: &str, stop: char) -> (head: String)
    ensures
        head@ == leading_part(s@, stop),
{
    let chars = chars_of(s);
    let mut n: usize = 0;
    while n < chars.len() && chars[n] != stop
        invariant
            chars@ == s@,
            n <= chars.len(),
            forall|i: int| 0 <= i < n ==> s@[i] != stop,
        decreases chars.len() - n,
    {
        n += 1;
    }
    proof {
        assert(stops_at(s@, stop, n as int));
        let chosen = choose|m: int| stops_at(s@, stop, m);
        assert(stops_at(s@, stop, chosen));
        assert(chosen == n) by {
            if chosen < n {
                assert(s@[chosen] != stop);
            } else if n < chosen {
                assert(s@[n as int] != stop);
            }
        }
    }
    String::from_str(s.substring_char(0, n))
}

/// Whether `c` is one of the ten decimal digits.
pub open spec fn is_digit(c: char) -> bool {
    '0' <= c <= '9'
}

/// The number that the digits of `s` write in base ten.
pub open spec fn decimal_value(s: Seq<char>) -> int
    decreases s.len(),
{
    if s.len() == 0 {
        0
    } else {
        decimal_value(s.drop_last()) * 10 + (s.last() as int - '0' as int)
    }
}

/// Whether `s` is a decimal number: one digit or more, and nothing else.
pub open spec fn is_decimal(s: Seq<char>) -> bool {
    s.len() > 0 && forall|i: int| 0 <= i < s.len() ==> is_digit(#[trigger] s[i])
}

/// The 16-bit number that `s` writes, if it writes one: `s` is a decimal
/// number of at most 65535. Signs and blanks are not accepted.
pub open spec fn parsed_u16(s: Seq<char>) -> Option<u16> {
    if is_decimal(s) && decimal_value(s) <= u16::MAX {
        Some(decimal_value(s) as u16)
    } else {
        None
    }
}

/// The digits at the start of a decimal number write no more than the whole.
proof fn lemma_decimal_prefix(s: Seq<char>, n: int)
    requires
        0 <= n <= s.len(),
        forall|i: int| 0 <= i < s.len() ==> is_digit(#[trigger] s[i]),
    ensures
        0 <= decimal_value(s.take(n)) <= decimal_value(s),
    decreases s.len(),
{
    if n == s.len() {
        assert(s.take(n) =~= s);
        if s.len() > 0 {
            lemma_decimal_prefix(s.drop_last(), n - 1);
            assert(s.drop_last().take(n - 1) =~= s.drop_last());
        }
    } else {
        lemma_decimal_prefix(s.drop_last(), n);
        assert(s.drop_last().take(n) =~= s.take(n));
    }
}

/// Reads a 16-bit number written in decimal digits.
pub fn parse_u16(s: &str) -> (number: Option<u16>)
    ensures
        number == parsed_u16(s@),
{
    let chars = chars_of(s);
    if chars.len() == 0 {
        return None;
    }
    let mut value: u32 = 0;
    let mut i: usize = 0;
    proof {
        assert(s@.take(0) =~= Seq::<char>::empty());
    }
    while i < chars.len()
        invariant
            chars@ == s@,
            i <= chars.len(),
            forall|j: int| 0 <= j < i ==> is_digit(#[trigger] s@[j]),
            value == decimal_value(s@.take(i as int)),
            value <= u16::MAX,
        decreases chars.len() - i,
    {
        let c: char = chars[i];
        if c < '0' || c > '9' {
            assert(!is_digit(s@[i as int]));
            return None;
        }
        let code: u32 = c as u32;
        proof {
            let longer = s@.take(i + 1);
            assert(longer.drop_last() =~= s@.take(i as int));
            assert(longer.last() == s@[i as int]);
        }
        value = value * 10 + (code - 48);
        if value > 65535 {
            proof {
                if is_decimal(s@) {
                    lemma_decimal_prefix(s@, i + 1);
                }
            }
            return None;
        }
        i += 1;
    }
    proof {
        assert(s@.take(i as int) =~= s@);
    }
    Some(value as u16)
}

/// The character of a digit below ten.
pub open spec fn digit_char(digit: int) -> char {
    ('0' as int + digit) as char
}

/// The decimal digits of `n`, without leading zeros.
pub open spec fn decimal_digits(n: nat) -> Seq<char>
    decreases n,
{
    if n < 10 {
        seq![digit_char(n as int)]
    } else {
        decimal_digits(n / 10).push(digit_char((n % 10) as int))
    }
}

/// The digits of a number write that number.
pub proof fn lemma_digits_write_the_number(n: nat)
    ensures
        is_decimal(decimal_digits(n)),
        decimal_value(decimal_digits(n)) == n,
    decreases n,
{
    if n < 10 {
        let digits = seq![digit_char(n as int)];
        assert(digits.drop_last() =~= Seq::<char>::empty());
        assert(decimal_value(digits.drop_last()) == 0);
        assert(digits.last() == digit_char(n as int));
    } else {
        lemma_digits_write_the_number(n / 10);
        let front = decimal_digits(n / 10);
        let digits = front.push(digit_char((n % 10) as int));
        assert(digits.drop_last() =~= front);
        assert(digits.last() == digit_char((n % 10) as int));
        assert forall|i: int| 0 <= i < digits.len() implies is_digit(#[trigger] digits[i]) by {
            if i < front.len() {
                assert(digits[i] == front[i]);
            }
        }
    }
}

/// A 16-bit number that was written in decimal digits is read back as it
/// was.
pub proof fn lemma_written_number_is_read_back(n: u16)
    ensures
        parsed_u16(decimal_digits(n as nat)) == Some(n),
{
    lemma_digits_write_the_number(n as nat);
}

/// The text of one digit.
fn digit_text(digit: u16) -> (text: &'static str)
    requires
        digit < 10,
    ensures
        text@ == seq![digit_char(digit as int)],
{
    proof {
        reveal_strlit("0");
        reveal_strlit("1");
        reveal_strlit("2");
        reveal_strlit("3");
        reveal_strlit("4");
        reveal_strlit("5");
        reveal_strlit("6");
        reveal_strlit("7");
        reveal_strlit("8");
        reveal_strlit("9");
    }
    let text = if digit == 0 {
        "0"
    } else if digit == 1 {
        "1"
    } else if digit == 2 {
        "2"
    } else if digit == 3 {
        "3"
    } else if digit == 4 {
        "4"
    } else if digit == 5 {
        "5"
    } else if digit == 6 {
        "6"
    } else if digit == 7 {
        "7"
    } else if digit == 8 {
        "8"
    } else {
        "9"
    };
    assert(text@ =~= seq![digit_char(digit as int)]);
    text
}

/// Writes `n` in decimal digits.
pub fn decimal_text(n: u16) -> (text: String)
    ensures
        text@ == decimal_digits(n as nat),
    decreases n,
{
    if n < 10 {
        String::from_str(digit_text(n))
    } else {
        let mut text = decimal_text(n / 10);
        text.append(digit_text(n % 10));
        assert(text@ =~= decimal_digits((n / 10) as nat).push(digit_char((n % 10) as int)));
        text
    }
}

} // verus!
