use crate::grid::Coord;
use crate::text::{decimal, decimal_text, digit_text};
use vstd::prelude::*;
use vstd::string::*;

verus! {

/// The value of the decimal digit `c`, if it is one.
pub open spec fn digit_value(c: char) -> Option<nat> {
    if c == '0' {
        Some(0)
    } else if c == '1' {
        Some(1)
    } else if c == '2' {
        Some(2)
    } else if c == '3' {
        Some(3)
    } else if c == '4' {
        Some(4)
    } else if c == '5' {
        Some(5)
    } else if c == '6' {
        Some(6)
    } else if c == '7' {
        Some(7)
    } else if c == '8' {
        Some(8)
    } else if c == '9' {
        Some(9)
    } else {
        None
    }
}

/// The number that some digits write, if they are digits and at least one.
pub open spec fn digits_value(d: Seq<char>) -> Option<nat>
    decreases d.len(),
{
    if d.len() == 0 {
        None
    } else if d.len() == 1 {
        digit_value(d[0])
    } else {
        match (digits_value(d.drop_last()), digit_value(d.last())) {
            (Some(high), Some(low)) => Some(10 * high + low),
            _ => None,
        }
    }
}

/// The integer `n` in decimal, with `-` before a negative one.
pub open spec fn int_text(n: int) -> Seq<char> {
    if n < 0 {
        seq!['-'] + decimal_text((-n) as nat)
    } else {
        decimal_text(n as nat)
    }
}

/// The key under which a position is stored: its three components in
/// decimal, with a comma between them.
pub open spec fn key_text(c: Coord) -> Seq<char> {
    int_text(c.x as int) + seq![','] + int_text(c.y as int) + seq![','] + int_text(c.z as int)
}

/// The number that a field of a key writes: digits, at least one, after `-`,
/// `+` or neither, within the range of `i32`.
pub open spec fn field_value(f: Seq<char>) -> Option<i32> {
    let negative = f.len() > 0 && f[0] == '-';
    let signed = negative || (f.len() > 0 && f[0] == '+');
    let digits = if signed {
        f.skip(1)
    } else {
        f
    };
    match digits_value(digits) {
        Some(v) => {
            let n: int = if negative {
                -(v as int)
            } else {
                v as int
            };
            if i32::MIN <= n <= i32::MAX {
                Some(n as i32)
            } else {
                None
            }
        },
        None => None,
    }
}

/// Where the first comma at or after `from` stands, or the length of the
/// text where there is none.
pub open spec fn first_comma(t: Seq<char>, from: int) -> int
    decreases t.len() - from,
{
    if from < 0 || from >= t.len() {
        t.len() as int
    } else if t[from] == ',' {
        from
    } else {
        first_comma(t, from + 1)
    }
}

/// The characters from `a` up to `b` are a field of the text: commas or the
/// ends of the text bound them, and no comma is among them.
pub open spec fn is_field(t: Seq<char>, a: int, b: int) -> bool {
    &&& 0 <= a <= b <= t.len()
    &&& a == 0 || t[a - 1] == ','
    &&& b == t.len() || t[b] == ','
    &&& forall|k: int| a <= k < b ==> #[trigger] t[k] != ','
}

/// Every field of the text writes a number.
pub open spec fn fields_sound(t: Seq<char>) -> bool {
    forall|a: int, b: int| #[trigger] is_field(t, a, b) ==> field_value(t.subrange(a, b)) is Some
}

/// The position that a text writes: its first three fields, where it has
/// three fields or more and each of them writes a number.
pub open spec fn scan(t: Seq<char>) -> Option<Coord> {
    let i = first_comma(t, 0);
    let j = first_comma(t, i + 1);
    let k = first_comma(t, j + 1);
    if i < t.len() && j < t.len() && fields_sound(t) {
        Some(
            Coord {
                x: field_value(t.subrange(0, i))->0,
                y: field_value(t.subrange(i + 1, j))->0,
                z: field_value(t.subrange(j + 1, k))->0,
            },
        )
    } else {
        None
    }
}

/// A digit is written with one character, which has its value.
proof fn lemma_digit_text(d: nat)
    requires
        d < 10,
    ensures
        digit_text(d).len() == 1,
        digit_value(digit_text(d)[0]) == Some(d),
{
    reveal_strlit("0");
    reveal_strlit("1");
    reveal_strlit("2");
    reveal_strlit("3");
    reveal_strlit("4");
    reveal_strlit("5");
    reveal_strlit("6");
    reveal_strlit("7");
    reveal_strlit("8");
    reveal_strlit("9");
}

/// A number in decimal is made of digits, which write it.
proof fn lemma_decimal_text(n: nat)
    ensures
        decimal_text(n).len() >= 1,
        digits_value(decimal_text(n)) == Some(n),
        forall|i: int|
            0 <= i < decimal_text(n).len() ==> digit_value(#[trigger] decimal_text(n)[i]) is Some,
    decreases n,
{
    if n < 10 {
        lemma_digit_text(n);
    } else {
        lemma_decimal_text(n / 10);
        lemma_digit_text(n % 10);
        let high = decimal_text(n / 10);
        let low = digit_text(n % 10);
        let t = decimal_text(n);
        assert(t == high + low);
        assert(t.drop_last() =~= high);
        assert(t.last() == low[0]);
        assert forall|i: int| 0 <= i < t.len() implies digit_value(#[trigger] t[i]) is Some by {
            if i < high.len() {
                assert(t[i] == high[i]);
            } else {
                assert(t[i] == low[0]);
            }
        }
    }
}

/// Digits write a number only if each of them is a digit.
proof fn lemma_digits_all(d: Seq<char>)
    requires
        digits_value(d) is Some,
    ensures
        forall|i: int| 0 <= i < d.len() ==> digit_value(#[trigger] d[i]) is Some,
    decreases d.len(),
{
    if d.len() > 1 {
        lemma_digits_all(d.drop_last());
        assert forall|i: int| 0 <= i < d.len() implies digit_value(#[trigger] d[i]) is Some by {
            if i < d.len() - 1 {
                assert(d[i] == d.drop_last()[i]);
            }
        }
    }
}

/// A field that writes an integer of 32 bits in decimal has it as its value.
proof fn lemma_field_of_int(n: i32)
    ensures
        field_value(int_text(n as int)) == Some(n),
        forall|i: int|
            0 <= i < int_text(n as int).len() ==> #[trigger] int_text(n as int)[i] != ',',
{
    let magnitude: nat = if n < 0 {
        (-(n as int)) as nat
    } else {
        n as nat
    };
    lemma_decimal_text(magnitude);
    let f = int_text(n as int);
    let digits = decimal_text(magnitude);
    if n < 0 {
        assert(f == seq!['-'] + digits);
        assert(f.skip(1) =~= digits);
        assert(f[0] == '-');
        assert forall|i: int| 0 <= i < f.len() implies #[trigger] f[i] != ',' by {
            if i > 0 {
                assert(f[i] == digits[i - 1]);
            }
        }
    } else {
        assert(f == digits);
        assert(digit_value(digits[0]) is Some);
    }
}

/// The first comma at or after `from` stands at `at` where a comma stands
/// there and none before it.
proof fn lemma_first_comma(t: Seq<char>, from: int, at: int)
    requires
        0 <= from <= at < t.len(),
        t[at] == ',',
        forall|k: int| from <= k < at ==> #[trigger] t[k] != ',',
    ensures
        first_comma(t, from) == at,
    decreases at - from,
{
    if from < at {
        lemma_first_comma(t, from + 1, at);
    }
}

/// Where no comma stands from `from` on, the first comma is the end of the text.
proof fn lemma_no_comma(t: Seq<char>, from: int)
    requires
        0 <= from <= t.len(),
        forall|k: int| from <= k < t.len() ==> #[trigger] t[k] != ',',
    ensures
        first_comma(t, from) == t.len(),
    decreases t.len() - from,
{
    if from < t.len() {
        lemma_no_comma(t, from + 1);
    }
}

/// A field ends at the first comma from its start on.
proof fn lemma_field_end(t: Seq<char>, a: int, b: int)
    requires
        is_field(t, a, b),
    ensures
        b == first_comma(t, a),
{
    if b < t.len() {
        lemma_first_comma(t, a, b);
    } else {
        lemma_no_comma(t, a);
    }
}

/// The first comma from `from` on stands at or after `from`, with no comma
/// before it.
proof fn lemma_comma_found(t: Seq<char>, from: int)
    requires
        0 <= from <= t.len(),
    ensures
        from <= first_comma(t, from) <= t.len(),
        first_comma(t, from) < t.len() ==> t[first_comma(t, from)] == ',',
        forall|k: int| from <= k < first_comma(t, from) ==> #[trigger] t[k] != ',',
    decreases t.len() - from,
{
    if from < t.len() && t[from] != ',' {
        lemma_comma_found(t, from + 1);
    }
}

/// The key of a position writes the position.
pub proof fn lemma_scan_key(c: Coord)
    ensures
        scan(key_text(c)) == Some(c),
{
    let a = int_text(c.x as int);
    let b = int_text(c.y as int);
    let d = int_text(c.z as int);
    let t = key_text(c);
    lemma_field_of_int(c.x);
    lemma_field_of_int(c.y);
    lemma_field_of_int(c.z);
    let i = a.len() as int;
    let j = i + 1 + b.len();
    let n = t.len() as int;
    assert(n == a.len() + b.len() + d.len() + 2);
    assert(t[i] == ',');
    assert(t[j] == ',');
    assert forall|k: int| 0 <= k < i implies #[trigger] t[k] != ',' by {
        assert(t[k] == a[k]);
    }
    assert forall|k: int| i + 1 <= k < j implies #[trigger] t[k] != ',' by {
        assert(t[k] == b[k - i - 1]);
    }
    assert forall|k: int| j + 1 <= k < n implies #[trigger] t[k] != ',' by {
        assert(t[k] == d[k - j - 1]);
    }
    lemma_first_comma(t, 0, i);
    lemma_first_comma(t, i + 1, j);
    lemma_no_comma(t, j + 1);
    assert(t.subrange(0, i) =~= a);
    assert(t.subrange(i + 1, j) =~= b);
    assert(t.subrange(j + 1, n) =~= d);
    assert forall|x: int, y: int| #[trigger] is_field(t, x, y) implies field_value(
        t.subrange(x, y),
    ) is Some by {
        lemma_field_end(t, x, y);
        if x != 0 {
            assert(t[x - 1] == ',');
            assert(x - 1 == i || x - 1 == j);
        }
    }
}

/// Different positions have different keys.
pub proof fn law_keys_differ(c: Coord, d: Coord)
    requires
        key_text(c) == key_text(d),
    ensures
        c == d,
{
    lemma_scan_key(c);
    lemma_scan_key(d);
}

fn int_string(n: i32) -> (text: String)
    ensures
        text@ == int_text(n as int),
{
    if n < 0 {
        proof {
            reveal_strlit("-");
        }
        let magnitude: u128 = (-(n as i64)) as u128;
        let text = String::from_str("-").concat(decimal(magnitude).as_str());
        assert(text@ =~= int_text(n as int));
        text
    } else {
        decimal(n as u128)
    }
}

/// Writes the key under which a position is stored.
pub fn coord_key(c: Coord) -> (key: String)
    ensures
        key@ == key_text(c),
{
    proof {
        reveal_strlit(",");
    }
    let key = int_string(c.x).concat(",").concat(int_string(c.y).as_str()).concat(",").concat(
        int_string(c.z).as_str(),
    );
    assert(key@ =~= key_text(c));
    key
}

fn chars_of(text: &str) -> (chars: Vec<char>)
    ensures
        chars@ == text@,
{
    let n = text.unicode_len();
    let mut chars: Vec<char> = Vec::new();
    let mut i: usize = 0;
    while i < n
        invariant
            i <= n,
            n == text@.len(),
            chars@ == text@.take(i as int),
        decreases n - i,
    {
        chars.push(text.get_char(i));
        assert(chars@ =~= text@.take(i + 1));
        i = i + 1;
    }
    assert(text@.take(n as int) =~= text@);
    chars
}

fn digit_of(c: char) -> (value: Option<u64>)
    ensures
        match value {
            Some(v) => digit_value(c) == Some(v as nat) && v < 10,
            None => digit_value(c) is None,
        },
{
    if c == '0' {
        Some(0)
    } else if c == '1' {
        Some(1)
    } else if c == '2' {
        Some(2)
    } else if c == '3' {
        Some(3)
    } else if c == '4' {
        Some(4)
    } else if c == '5' {
        Some(5)
    } else if c == '6' {
        Some(6)
    } else if c == '7' {
        Some(7)
    } else if c == '8' {
        Some(8)
    } else if c == '9' {
        Some(9)
    } else {
        None
    }
}

/// Reads the number that the characters from `from` up to `to` write.
fn read_field(chars: &Vec<char>, from: usize, to: usize) -> (value: Option<i32>)
    requires
        from <= to <= chars.len(),
    ensures
        value == field_value(chars@.subrange(from as int, to as int)),
{
    let ghost f = chars@.subrange(from as int, to as int);
    let negative = from < to && chars[from] == '-';
    let signed = negative || (from < to && chars[from] == '+');
    let start: usize = if signed {
        from + 1
    } else {
        from
    };
    let ghost digits = chars@.subrange(start as int, to as int);
    proof {
        if signed {
            assert(f.skip(1) =~= digits);
        } else {
            assert(f =~= digits);
        }
    }
    if to == start {
        return None;
    }
    let mut acc: u64 = match digit_of(chars[start]) {
        Some(v) => v,
        None => {
            proof {
                if digits_value(digits) is Some {
                    lemma_digits_all(digits);
                    assert(digit_value(digits[0]) is Some);
                }
            }
            return None;
        },
    };
    let mut i: usize = start + 1;
    proof {
        assert(digits.take(1).len() == 1);
        assert(digits.take(1)[0] == chars@[start as int]);
    }
    // a number beyond the range is kept as it is: the digits after it only make it greater
    while i < to
        invariant
            start < i <= to,
            to <= chars.len(),
            digits == chars@.subrange(start as int, to as int),
            f == chars@.subrange(from as int, to as int),
            negative == (f.len() > 0 && f[0] == '-'),
            signed == (negative || (f.len() > 0 && f[0] == '+')),
            digits == (if signed {
                f.skip(1)
            } else {
                f
            }),
            digits_value(digits.take(i - start)) is Some,
            acc <= 2_147_483_648 ==> digits_value(digits.take(i - start)) == Some(acc as nat),
            acc > 2_147_483_648 ==> digits_value(digits.take(i - start))->0 > 2_147_483_648,
            acc <= 21_474_836_489,
        decreases to - i,
    {
        let ghost k = (i - start) as int;
        proof {
            assert(digits.take(k + 1).drop_last() =~= digits.take(k));
            assert(digits.take(k + 1).last() == chars@[i as int]);
        }
        match digit_of(chars[i]) {
            Some(v) => {
                if acc <= 2_147_483_648 {
                    acc = acc * 10 + v;
                }
            },
            None => {
                proof {
                    if digits_value(digits) is Some {
                        lemma_digits_all(digits);
                        assert(digit_value(digits[i - start]) is Some);
                    }
                }
                return None;
            },
        }
        i = i + 1;
    }
    assert(digits.take(to - start) =~= digits);
    if negative {
        if acc > 2_147_483_648 {
            None
        } else {
            Some((-(acc as i64)) as i32)
        }
    } else {
        if acc > 2_147_483_647 {
            None
        } else {
            Some(acc as i32)
        }
    }
}

/// Finds the first comma at or after `from`.
fn find_comma(chars: &Vec<char>, from: usize) -> (at: usize)
    requires
        from <= chars.len(),
    ensures
        at == first_comma(chars@, from as int),
        from <= at <= chars.len(),
{
    let mut i: usize = from;
    while i < chars.len()
        invariant
            from <= i <= chars.len(),
            first_comma(chars@, from as int) == first_comma(chars@, i as int),
        decreases chars.len() - i,
    {
        if chars[i] == ',' {
            return i;
        }
        i = i + 1;
    }
    i
}

/// Reads a position from a key: three numbers in decimal with a comma
/// between them, as `coord_key` writes them; a number may also have a `+` or
/// zeros before it. Fields after the third are passed over where each of
/// them writes a number. Any other text is no key.
pub fn parse_coord_key(key: &str) -> (position: Option<Coord>)
    ensures
        position == scan(key@),
{
    let chars = chars_of(key);
    let ghost t = chars@;
    let mut read: Vec<i32> = Vec::new();
    let mut from: usize = 0;
    let mut fields: usize = 0;
    loop
        invariant_except_break
            from <= chars.len(),
            from == 0 || t[from - 1] == ',',
            t == chars@,
            t == key@,
            fields <= 3,
            fields == 0 <==> from == 0,
            fields == 1 ==> from == first_comma(t, 0) + 1,
            fields == 2 ==> from == first_comma(t, first_comma(t, 0) + 1) + 1 && first_comma(t, 0)
                < t.len(),
            fields >= 3 ==> first_comma(t, 0) < t.len() && first_comma(
                t,
                first_comma(t, 0) + 1,
            ) < t.len(),
            fields < 3 ==> read@.len() == fields,
            fields >= 3 ==> read@.len() == 3,
            fields >= 1 ==> Some(read@[0]) == field_value(t.subrange(0, first_comma(t, 0))),
            fields >= 2 ==> Some(read@[1]) == field_value(
                t.subrange(first_comma(t, 0) + 1, first_comma(t, first_comma(t, 0) + 1)),
            ),
            fields >= 3 ==> Some(read@[2]) == field_value(
                t.subrange(
                    first_comma(t, first_comma(t, 0) + 1) + 1,
                    first_comma(t, first_comma(t, first_comma(t, 0) + 1) + 1),
                ),
            ),
            forall|a: int, b: int|
                a < from && #[trigger] is_field(t, a, b) ==> field_value(t.subrange(a, b)) is Some,
        ensures
            from <= chars.len(),
            t == chars@,
            t == key@,
            fields_sound(t),
            (fields >= 3) == (first_comma(t, 0) < t.len() && first_comma(
                t,
                first_comma(t, 0) + 1,
            ) < t.len()),
            fields >= 3 ==> read@.len() == 3,
            fields >= 3 ==> Some(read@[0]) == field_value(t.subrange(0, first_comma(t, 0))),
            fields >= 3 ==> Some(read@[1]) == field_value(
                t.subrange(first_comma(t, 0) + 1, first_comma(t, first_comma(t, 0) + 1)),
            ),
            fields >= 3 ==> Some(read@[2]) == field_value(
                t.subrange(
                    first_comma(t, first_comma(t, 0) + 1) + 1,
                    first_comma(t, first_comma(t, first_comma(t, 0) + 1) + 1),
                ),
            ),
        decreases chars.len() - from,
    {
        let to = find_comma(&chars, from);
        proof {
            lemma_comma_found(t, from as int);
            assert(is_field(t, from as int, to as int));
        }
        let value = match read_field(&chars, from, to) {
            Some(value) => value,
            None => {
                assert(!fields_sound(t));
                return None;
            },
        };
        if fields < 3 {
            read.push(value);
            fields = fields + 1;
        }
        proof {
            assert forall|a: int, b: int| a < to + 1 && #[trigger] is_field(t, a, b) implies field_value(
                t.subrange(a, b),
            ) is Some by {
                if a >= from {
                    if a > from {
                        assert(t[a - 1] == ',');
                        assert(false);
                    }
                    lemma_field_end(t, a, b);
                }
            }
        }
        if to == chars.len() {
            proof {
                assert forall|a: int, b: int| #[trigger] is_field(t, a, b) implies field_value(
                    t.subrange(a, b),
                ) is Some by {}
            }
            break;
        }
        from = to + 1;
    }
    if fields >= 3 {
        Some(Coord { x: read[0], y: read[1], z: read[2] })
    } else {
        None
    }
}

} // verus!
