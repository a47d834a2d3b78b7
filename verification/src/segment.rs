//! The segments of a data directory: how their files are named, and which
//! names of a directory are segments.

use vstd::prelude::*;
use vstd::string::StringExecFns;
use vstd::utf8::encode_utf8;
use vstd::utf8::is_ascii_chars;
use vstd::utf8::is_ascii_chars_encode_utf8;

verus! {

/// The character of a decimal digit.
pub open spec fn digit_char(d: int) -> char {
    if d == 0 {
        '0'
    } else if d == 1 {
        '1'
    } else if d == 2 {
        '2'
    } else if d == 3 {
        '3'
    } else if d == 4 {
        '4'
    } else if d == 5 {
        '5'
    } else if d == 6 {
        '6'
    } else if d == 7 {
        '7'
    } else if d == 8 {
        '8'
    } else {
        '9'
    }
}

/// A number in decimal digits, without leading zeros.
pub open spec fn decimal(n: nat) -> Seq<char>
    decreases n,
{
    if n < 10 {
        seq![digit_char(n as int)]
    } else {
        decimal(n / 10).push(digit_char((n % 10) as int))
    }
}

/// The ending of a segment's file name: `.db`.
pub open spec fn suffix() -> Seq<char> {
    seq!['.', 'd', 'b']
}

/// The file name of the segment `n`: its number in decimal, then `.db`.
pub open spec fn segment_name(n: u64) -> Seq<char> {
    decimal(n as nat) + suffix()
}

/// The digits `d`, least significant first, read as a text.
pub open spec fn digits_text(d: Seq<u8>) -> Seq<char> {
    Seq::new(d.len(), |i: int| digit_char(d[d.len() - 1 - i] as int))
}

/// The text of one digit.
fn digit_str(d: u8) -> (r: &'static str)
    requires
        d < 10,
    ensures
        r@ == seq![digit_char(d as int)],
{
    proof {
        reveal_strlit("0");
        reveal_strlit("1");
        reveal_strlit("2");
        reveal_strlit("3");
        reveal_strlit("4");
        reveal_strlit("5");
        reveal_strlit("6");
        reveal_strlit("7");
        reveal_strlit("8");
        reveal_strlit("9");
        assert("0"@ =~= seq!['0']);
        assert("1"@ =~= seq!['1']);
        assert("2"@ =~= seq!['2']);
        assert("3"@ =~= seq!['3']);
        assert("4"@ =~= seq!['4']);
        assert("5"@ =~= seq!['5']);
        assert("6"@ =~= seq!['6']);
        assert("7"@ =~= seq!['7']);
        assert("8"@ =~= seq!['8']);
        assert("9"@ =~= seq!['9']);
    }
    if d == 0 {
        "0"
    } else if d == 1 {
        "1"
    } else if d == 2 {
        "2"
    } else if d == 3 {
        "3"
    } else if d == 4 {
        "4"
    } else if d == 5 {
        "5"
    } else if d == 6 {
        "6"
    } else if d == 7 {
        "7"
    } else if d == 8 {
        "8"
    } else {
        "9"
    }
}

/// The file name of the segment `file_no` in its data directory.
pub fn log_path(file_no: u64) -> (r: String)
    ensures
        r@ == segment_name(file_no),
{
    let mut digits: Vec<u8> = Vec::new();
    let mut n: u64 = file_no;
    digits.push((n % 10) as u8);
    n = n / 10;
    assert(digits_text(digits@) =~= seq![digit_char((file_no % 10) as int)]);
    assert(file_no >= 10 ==> decimal(file_no as nat) =~= decimal(n as nat) + digits_text(digits@));
    assert(file_no < 10 ==> decimal(file_no as nat) =~= digits_text(digits@));
    while n > 0
        invariant
            digits@.len() > 0,
            forall|i: int| 0 <= i < digits@.len() ==> digits@[i] < 10,
            decimal(file_no as nat) == (if n > 0 {
                decimal(n as nat)
            } else {
                Seq::<char>::empty()
            }) + digits_text(digits@),
        decreases n,
    {
        let ghost before = digits@;
        let d = (n % 10) as u8;
        digits.push(d);
        proof {
            assert(digits_text(digits@) =~= seq![digit_char(d as int)] + digits_text(before));
            if n >= 10 {
                assert(decimal(n as nat) + digits_text(before) =~= decimal((n / 10) as nat)
                    + digits_text(digits@));
            } else {
                assert(decimal(n as nat) + digits_text(before) =~= Seq::<char>::empty()
                    + digits_text(digits@));
            }
        }
        n = n / 10;
    }
    assert(decimal(file_no as nat) =~= digits_text(digits@));
    let mut out = String::new();
    let mut i: usize = digits.len();
    while i > 0
        invariant
            i <= digits@.len(),
            forall|j: int| 0 <= j < digits@.len() ==> digits@[j] < 10,
            out@ == digits_text(digits@).subrange(0, digits@.len() - i),
        decreases i,
    {
        i -= 1;
        let ghost before = out@;
        out.append(digit_str(digits[i]));
        assert(out@ =~= digits_text(digits@).subrange(0, digits@.len() - i));
    }
    proof {
        reveal_strlit(".db");
        assert(".db"@ =~= suffix());
        assert(out@ =~= digits_text(digits@));
    }
    out.append(".db");
    out
}

/// Whether a byte is a decimal digit.
pub open spec fn is_digit(b: u8) -> bool {
    0x30u8 <= b <= 0x39u8
}

/// Whether every byte of `s` is a decimal digit.
pub open spec fn all_digits(s: Seq<u8>) -> bool {
    forall|i: int| 0 <= i < s.len() ==> is_digit(#[trigger] s[i])
}

/// The number that the decimal digits `s` write.
pub open spec fn decimal_value(s: Seq<u8>) -> nat
    decreases s.len(),
{
    if s.len() == 0 {
        0
    } else {
        (decimal_value(s.drop_last()) * 10 + (s.last() - 0x30u8)) as nat
    }
}

/// The number that the text `s` writes: decimal digits, at least one, with
/// or without a plus sign before them, of a value that a `u64` holds.
pub open spec fn parse_number(s: Seq<u8>) -> Option<u64> {
    let d = if s.len() > 0 && s[0] == 0x2bu8 {
        s.subrange(1, s.len() as int)
    } else {
        s
    };
    if d.len() > 0 && all_digits(d) && decimal_value(d) <= u64::MAX {
        Some(decimal_value(d) as u64)
    } else {
        None
    }
}

/// The bytes `.db`.
pub open spec fn suffix_bytes() -> Seq<u8> {
    seq![0x2eu8, 0x64u8, 0x62u8]
}

/// The number of the segment whose file has the name `name`, given in
/// bytes; `None` where the name is not a number followed by `.db`.
pub open spec fn parse_segment_name(name: Seq<u8>) -> Option<u64> {
    if name.len() >= 3 && name.subrange(name.len() - 3, name.len() as int) == suffix_bytes() {
        parse_number(name.subrange(0, name.len() - 3))
    } else {
        None
    }
}

/// The number of the segment whose file has the name `name`.
pub open spec fn segment_number(name: Seq<char>) -> Option<u64> {
    parse_segment_name(encode_utf8(name))
}

/// More digits never write a smaller number.
pub proof fn lemma_decimal_value_grows(s: Seq<u8>, i: int)
    requires
        all_digits(s),
        0 <= i <= s.len(),
    ensures
        decimal_value(s.subrange(0, i)) <= decimal_value(s),
    decreases s.len() - i,
{
    if i < s.len() {
        let t = s.subrange(0, i + 1);
        assert(t.drop_last() =~= s.subrange(0, i));
        assert(is_digit(s[i]));
        lemma_decimal_value_grows(s, i + 1);
    } else {
        assert(s.subrange(0, i) =~= s);
    }
}

/// Reads a number as `parse_number` says.
fn read_number(s: &[u8]) -> (r: Option<u64>)
    ensures
        r == parse_number(s@),
{
    let start: usize = if s.len() > 0 && s[0] == 0x2bu8 {
        1
    } else {
        0
    };
    let ghost d = s@.subrange(start as int, s@.len() as int);
    assert(start == 0 ==> d =~= s@);
    if s.len() == start {
        return None;
    }
    let mut acc: u64 = 0;
    let mut i: usize = start;
    assert(d.subrange(0, 0) =~= Seq::<u8>::empty());
    while i < s.len()
        invariant
            start <= i <= s.len(),
            d == s@.subrange(start as int, s@.len() as int),
            d.len() > 0,
            parse_number(s@) == (if all_digits(d) && decimal_value(d) <= u64::MAX {
                Some(decimal_value(d) as u64)
            } else {
                None
            }),
            all_digits(d.subrange(0, i - start)),
            acc == decimal_value(d.subrange(0, i - start)),
        decreases s.len() - i,
    {
        let b = s[i];
        assert(d[i - start] == b);
        if b < 0x30u8 || b > 0x39u8 {
            assert(!is_digit(d[i - start]));
            return None;
        }
        let ghost next = d.subrange(0, i - start + 1);
        proof {
            assert(next.drop_last() =~= d.subrange(0, i - start));
            assert(next.last() == b);
            assert forall|j: int| 0 <= j < next.len() implies is_digit(#[trigger] next[j]) by {
                if j < i - start {
                    assert(d.subrange(0, i - start)[j] == next[j]);
                }
            }
        }
        let step = match acc.checked_mul(10) {
            Some(m) => m.checked_add((b - 0x30u8) as u64),
            None => None,
        };
        match step {
            Some(v) => {
                acc = v;
            },
            None => {
                proof {
                    assert(decimal_value(next) > u64::MAX);
                    if all_digits(d) {
                        lemma_decimal_value_grows(d, i - start + 1);
                    }
                }
                return None;
            },
        }
        i += 1;
    }
    assert(d.subrange(0, i - start) =~= d);
    Some(acc)
}

/// Reads a segment's number from the bytes of its file name.
fn read_segment_name(bytes: &[u8]) -> (r: Option<u64>)
    ensures
        r == parse_segment_name(bytes@),
{
    let n = bytes.len();
    if n < 3 {
        return None;
    }
    let ghost tail = bytes@.subrange(n - 3, n as int);
    assert(tail[0] == bytes@[n - 3] && tail[1] == bytes@[n - 2] && tail[2] == bytes@[n - 1]);
    if bytes[n - 3] != 0x2eu8 || bytes[n - 2] != 0x64u8 || bytes[n - 1] != 0x62u8 {
        return None;
    }
    assert(tail =~= suffix_bytes());
    read_number(vstd::slice::slice_subrange(bytes, 0, n - 3))
}

/// The number of the segment whose file has the name `name`; `None` where
/// the name is not that of a segment.
pub fn parse_segment_file_name(name: &str) -> (r: Option<u64>)
    ensures
        r == segment_number(name@),
{
    read_segment_name(name.as_bytes())
}

/// Whether the numbers of `s` ascend; equal numbers may follow each other.
pub open spec fn sorted(s: Seq<u64>) -> bool {
    forall|i: int, j: int| 0 <= i < j < s.len() ==> s[i] <= s[j]
}

/// The segment numbers among the names `names`, in the order of the names.
pub open spec fn segment_numbers(names: Seq<Seq<char>>) -> Seq<u64>
    decreases names.len(),
{
    if names.len() == 0 {
        Seq::empty()
    } else {
        match segment_number(names.last()) {
            Some(n) => segment_numbers(names.drop_last()).push(n),
            None => segment_numbers(names.drop_last()),
        }
    }
}

/// The names as contracts speak of them.
pub open spec fn names_view(names: Seq<String>) -> Seq<Seq<char>> {
    names.map_values(|s: String| s@)
}

/// Puts a number at its place among ascending numbers, behind the numbers
/// equal to it.
fn insert_sorted(file_list: &mut Vec<u64>, n: u64)
    requires
        sorted(old(file_list)@),
    ensures
        sorted(final(file_list)@),
        final(file_list)@.to_multiset() == old(file_list)@.to_multiset().insert(n),
{
    let ghost before = file_list@;
    let mut p: usize = 0;
    while p < file_list.len() && file_list[p] <= n
        invariant
            p <= file_list@.len(),
            file_list@ == before,
            forall|k: int| 0 <= k < p ==> file_list@[k] <= n,
        decreases file_list@.len() - p,
    {
        p += 1;
    }
    file_list.insert(p, n);
    proof {
        vstd::seq_lib::to_multiset_insert(before, p as int, n);
        assert(file_list@ == before.insert(p as int, n));
        assert forall|a: int, b: int| 0 <= a < b < file_list@.len() implies file_list@[a]
            <= file_list@[b] by {
            let x = if a < p { a } else { a - 1 };
            let y = if b < p { b } else { b - 1 };
            if a != p && b != p {
                assert(before[x] <= before[y]);
            } else if a == p {
                assert(before[p as int] <= before[y]);
            }
        }
    }
}

/// The numbers of the segments among the file names of a data directory,
/// ascending. A name that is not that of a segment is passed over; a number
/// that several names write comes once for each.
pub fn get_sorted_file_list(names: &[String]) -> (r: Vec<u64>)
    ensures
        sorted(r@),
        r@.to_multiset() == segment_numbers(names_view(names@)).to_multiset(),
{
    let ghost all = names_view(names@);
    let mut file_list: Vec<u64> = Vec::new();
    let mut i: usize = 0;
    assert(all.subrange(0, 0) =~= Seq::<Seq<char>>::empty());
    while i < names.len()
        invariant
            i <= names.len(),
            all == names_view(names@),
            sorted(file_list@),
            file_list@.to_multiset() == segment_numbers(all.subrange(0, i as int)).to_multiset(),
        decreases names.len() - i,
    {
        let ghost seen = all.subrange(0, i as int);
        let ghost next = all.subrange(0, i + 1);
        proof {
            assert(next.drop_last() =~= seen);
            assert(next.last() == names@[i as int]@);
        }
        match parse_segment_file_name(names[i].as_str()) {
            Some(n) => {
                insert_sorted(&mut file_list, n);
                proof {
                    vstd::seq_lib::to_multiset_build(segment_numbers(seen), n);
                    assert(segment_numbers(next) == segment_numbers(seen).push(n));
                }
            },
            None => {
                assert(segment_numbers(next) == segment_numbers(seen));
            },
        }
        i += 1;
    }
    assert(all.subrange(0, i as int) =~= all);
    file_list
}

/// The bytes of a number in decimal digits.
pub open spec fn decimal_bytes(n: nat) -> Seq<u8>
    decreases n,
{
    if n < 10 {
        seq![(0x30 + n) as u8]
    } else {
        decimal_bytes(n / 10).push((0x30 + n % 10) as u8)
    }
}

/// The digits of a number write that number, and its text is made of
/// these digits.
pub proof fn lemma_decimal(n: nat)
    ensures
        decimal_bytes(n).len() > 0,
        all_digits(decimal_bytes(n)),
        decimal_value(decimal_bytes(n)) == n,
        decimal(n).len() == decimal_bytes(n).len(),
        is_ascii_chars(decimal(n)),
        forall|i: int| 0 <= i < decimal(n).len() ==> decimal(n)[i] as u8 == decimal_bytes(n)[i],
    decreases n,
{
    if n < 10 {
        let s = decimal_bytes(n);
        assert(s.drop_last() =~= Seq::<u8>::empty());
        assert(decimal_value(s.drop_last()) == 0);
    } else {
        lemma_decimal(n / 10);
        let s = decimal_bytes(n);
        assert(s.drop_last() =~= decimal_bytes(n / 10));
    }
}

/// A segment's file name names its segment: reading the name that
/// `log_path` gives for a number yields that number.
pub proof fn law_log_path_round_trip(n: u64)
    ensures
        segment_number(segment_name(n)) == Some(n),
{
    let name = segment_name(n);
    let digits = decimal_bytes(n as nat);
    lemma_decimal(n as nat);
    assert(is_ascii_chars(name));
    is_ascii_chars_encode_utf8(name);
    let bytes = encode_utf8(name);
    let stem = bytes.subrange(0, bytes.len() - 3);
    assert(stem =~= digits) by {
        assert forall|i: int| 0 <= i < stem.len() implies stem[i] == digits[i] by {
            assert(name[i] == decimal(n as nat)[i]);
            assert(bytes[i] == name[i] as u8);
        }
    }
    assert(bytes.subrange(bytes.len() - 3, bytes.len() as int) =~= suffix_bytes()) by {
        let k = decimal(n as nat).len() as int;
        assert(name[k] == '.');
        assert(name[k + 1] == 'd');
        assert(name[k + 2] == 'b');
        assert(bytes[k] == name[k] as u8);
        assert(bytes[k + 1] == name[k + 1] as u8);
        assert(bytes[k + 2] == name[k + 2] as u8);
    }
    assert(is_digit(digits[0]));
}

} // verus!
