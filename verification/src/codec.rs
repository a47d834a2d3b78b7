//! The byte layout of a record in a log segment.
//!
//! A record is one JSON object with a single member, whose name tells the
//! kind of the record: `{"Set":["key","value"]}`, `{"Rm":"key"}` or
//! `{"Get":"key"}`. The object closes the record, so records follow each
//! other without a separator. Every text in a record is a JSON string. How
//! a text is written as a JSON string, and what text the bytes of a JSON
//! string say, is left to `serde_json`; where a string ends, and everything
//! around the strings, is found here, byte by byte. So a record is read in
//! the same way whatever follows it.

use vstd::prelude::*;
use vstd::slice::slice_subrange;
use crate::common::Command;
use crate::common::Record;
use crate::errors::KvsError;
use crate::text::str_equal;

verus! {

/// The error type of `serde_json`.
#[verifier::external_type_specification]
#[verifier::external_body]
pub struct ExJsonError(serde_json::Error);

/// The bytes that `serde_json` writes for a text: the JSON string with its
/// quotes and escapes.
pub uninterp spec fn json_text(s: Seq<char>) -> Seq<u8>;

/// What `serde_json` reads from bytes that are to be one JSON string and
/// nothing else: the text, or `None` where the bytes are no JSON string.
pub uninterp spec fn json_string_value(bytes: Seq<u8>) -> Option<Seq<char>>;

/// Writes a text as a JSON string with `serde_json::to_vec`. The call
/// succeeds, and its bytes are what `json_text` names: for a text the
/// serializer does nothing that can fail but write, and it writes into a
/// vector, which takes every byte.
#[verifier::external_body]
fn write_json_string(s: &str) -> (r: Result<Vec<u8>, serde_json::Error>)
    ensures
        r is Ok,
        r matches Ok(v) ==> v@ == json_text(s@),
{
    serde_json::to_vec(s)
}

/// Reads bytes that are to be one JSON string with
/// `serde_json::from_slice`. The result is what `json_string_value` names:
/// the text, or `None` where the call reports an error.
#[verifier::external_body]
fn read_json_string(bytes: &[u8]) -> (r: Option<String>)
    ensures
        r matches Some(s) ==> json_string_value(bytes@) == Some(s@),
        r is None ==> json_string_value(bytes@) is None,
{
    match serde_json::from_slice::<String>(bytes) {
        Ok(s) => Some(s),
        Err(_) => None,
    }
}

/// The bytes `{"Set":[`.
pub open spec fn set_head() -> Seq<u8> {
    seq![0x7bu8, 0x22u8, 0x53u8, 0x65u8, 0x74u8, 0x22u8, 0x3au8, 0x5bu8]
}

/// The bytes `]}`.
pub open spec fn set_tail() -> Seq<u8> {
    seq![0x5du8, 0x7du8]
}

/// The bytes `{"Rm":`.
pub open spec fn rm_head() -> Seq<u8> {
    seq![0x7bu8, 0x22u8, 0x52u8, 0x6du8, 0x22u8, 0x3au8]
}

/// The bytes `{"Get":`.
pub open spec fn get_head() -> Seq<u8> {
    seq![0x7bu8, 0x22u8, 0x47u8, 0x65u8, 0x74u8, 0x22u8, 0x3au8]
}

/// The bytes of a `Set` record around the JSON strings of its key and value.
pub open spec fn frame_set(key: Seq<u8>, value: Seq<u8>) -> Seq<u8> {
    set_head() + key + seq![0x2cu8] + value + set_tail()
}

/// The bytes of a record with one text, behind the given head.
pub open spec fn frame_one(head: Seq<u8>, key: Seq<u8>) -> Seq<u8> {
    head + key + seq![0x7du8]
}

/// The bytes of a record.
pub open spec fn encoding(r: Record) -> Seq<u8> {
    match r {
        Record::Put(k, v) => frame_set(json_text(k), json_text(v)),
        Record::Rm(k) => frame_one(rm_head(), json_text(k)),
        Record::Get(k) => frame_one(get_head(), json_text(k)),
    }
}

/// Puts the bytes of a `Set` record around the JSON strings of its key and
/// value.
pub fn assemble_set(key: &[u8], value: &[u8]) -> (r: Vec<u8>)
    ensures
        r@ == frame_set(key@, value@),
{
    let mut out: Vec<u8> = Vec::new();
    out.push(0x7bu8);
    out.push(0x22u8);
    out.push(0x53u8);
    out.push(0x65u8);
    out.push(0x74u8);
    out.push(0x22u8);
    out.push(0x3au8);
    out.push(0x5bu8);
    assert(out@ =~= set_head());
    out.extend_from_slice(key);
    out.push(0x2cu8);
    out.extend_from_slice(value);
    out.push(0x5du8);
    out.push(0x7du8);
    assert(out@ =~= frame_set(key@, value@));
    out
}

/// Puts the bytes of an `Rm` record (`removal`) or of a `Get` record around
/// the JSON string of its key.
pub fn assemble_one(removal: bool, key: &[u8]) -> (r: Vec<u8>)
    ensures
        r@ == frame_one(if removal { rm_head() } else { get_head() }, key@),
{
    let mut out: Vec<u8> = Vec::new();
    out.push(0x7bu8);
    out.push(0x22u8);
    if removal {
        out.push(0x52u8);
        out.push(0x6du8);
    } else {
        out.push(0x47u8);
        out.push(0x65u8);
        out.push(0x74u8);
    }
    out.push(0x22u8);
    out.push(0x3au8);
    assert(removal ==> out@ =~= rm_head());
    assert(!removal ==> out@ =~= get_head());
    out.extend_from_slice(key);
    out.push(0x7du8);
    assert(out@ =~= frame_one(if removal { rm_head() } else { get_head() }, key@));
    out
}

/// The bytes of a command as they are appended to a segment. Every command
/// has them: encoding does not fail.
pub fn encode_command(cmd: &Command) -> (r: Result<Vec<u8>, KvsError>)
    ensures
        r matches Ok(bytes) && bytes@ == encoding(cmd@),
{
    match cmd {
        Command::Put(k, v) => {
            let key = match write_json_string(k.as_str()) {
                Ok(b) => b,
                Err(_) => {
                    return Err(KvsError::SerDeError);
                },
            };
            let value = match write_json_string(v.as_str()) {
                Ok(b) => b,
                Err(_) => {
                    return Err(KvsError::SerDeError);
                },
            };
            Ok(assemble_set(key.as_slice(), value.as_slice()))
        },
        Command::Rm(k) => {
            match write_json_string(k.as_str()) {
                Ok(b) => Ok(assemble_one(true, b.as_slice())),
                Err(_) => Err(KvsError::SerDeError),
            }
        },
        Command::Get(k) => {
            match write_json_string(k.as_str()) {
                Ok(b) => Ok(assemble_one(false, b.as_slice())),
                Err(_) => Err(KvsError::SerDeError),
            }
        },
    }
}

/// Whether a byte is white space between the parts of a record.
pub open spec fn is_blank(b: u8) -> bool {
    b == 0x20u8 || b == 0x0au8 || b == 0x09u8 || b == 0x0du8
}

/// The first position at or behind `pos` that holds no white space.
pub open spec fn skip_blank(bytes: Seq<u8>, pos: int) -> int
    decreases bytes.len() - pos,
{
    if 0 <= pos < bytes.len() && is_blank(bytes[pos]) {
        skip_blank(bytes, pos + 1)
    } else {
        pos
    }
}

/// The position behind the byte `b`, where `b` is the first byte at or
/// behind `pos` that is no white space.
pub open spec fn mark_at(bytes: Seq<u8>, pos: int, b: u8) -> Option<int> {
    let p = skip_blank(bytes, pos);
    if 0 <= p < bytes.len() && bytes[p] == b {
        Some(p + 1)
    } else {
        None
    }
}

/// The position of the quote that closes a JSON string whose content
/// starts at `pos`: the first quote from there on that no backslash stands
/// before, a backslash taking the byte behind it with it. Where there is
/// none, the length of the bytes.
pub open spec fn closing_quote(bytes: Seq<u8>, pos: int) -> int
    decreases bytes.len() - pos,
{
    if pos < 0 || pos >= bytes.len() {
        bytes.len() as int
    } else if bytes[pos] == 0x22u8 {
        pos
    } else if bytes[pos] == 0x5cu8 {
        if pos + 1 >= bytes.len() {
            bytes.len() as int
        } else {
            closing_quote(bytes, pos + 2)
        }
    } else {
        closing_quote(bytes, pos + 1)
    }
}

/// The JSON string that starts at `pos`, white space before it passed over,
/// and the position behind it: the bytes from the opening quote to the
/// quote that closes it are read as one JSON string.
pub open spec fn string_at(bytes: Seq<u8>, pos: int) -> Option<(Seq<char>, int)> {
    let p = skip_blank(bytes, pos);
    let q = closing_quote(bytes, p + 1);
    if 0 <= p < bytes.len() && bytes[p] == 0x22u8 && q < bytes.len() {
        match json_string_value(bytes.subrange(p, q + 1)) {
            Some(s) => Some((s, q + 1)),
            None => None,
        }
    } else {
        None
    }
}

/// The name of the member that holds a `Set` record.
pub open spec fn set_tag() -> Seq<char> {
    seq!['S', 'e', 't']
}

/// The name of the member that holds an `Rm` record.
pub open spec fn rm_tag() -> Seq<char> {
    seq!['R', 'm']
}

/// The name of the member that holds a `Get` record.
pub open spec fn get_tag() -> Seq<char> {
    seq!['G', 'e', 't']
}

/// The two texts of a `Set` record, in square brackets from `pos` on.
pub open spec fn pair_at(bytes: Seq<u8>, pos: int) -> Option<(Record, int)> {
    match mark_at(bytes, pos, 0x5bu8) {
        None => None,
        Some(at1) => match string_at(bytes, at1) {
            None => None,
            Some((key, at2)) => match mark_at(bytes, at2, 0x2cu8) {
                None => None,
                Some(at3) => match string_at(bytes, at3) {
                    None => None,
                    Some((value, at4)) => match mark_at(bytes, at4, 0x5du8) {
                        None => None,
                        Some(at5) => Some((Record::Put(key, value), at5)),
                    },
                },
            },
        },
    }
}

/// What stands behind the colon of a record with the given member name.
pub open spec fn body_at(bytes: Seq<u8>, tag: Seq<char>, pos: int) -> Option<(Record, int)> {
    if tag == set_tag() {
        pair_at(bytes, pos)
    } else if tag == rm_tag() {
        match string_at(bytes, pos) {
            Some((key, p)) => Some((Record::Rm(key), p)),
            None => None,
        }
    } else if tag == get_tag() {
        match string_at(bytes, pos) {
            Some((key, p)) => Some((Record::Get(key), p)),
            None => None,
        }
    } else {
        None
    }
}

/// The record that starts at `pos`, white space before it passed over, and
/// the position behind its closing brace; `None` where the bytes from `pos`
/// on do not start with a record.
pub open spec fn record_at(bytes: Seq<u8>, pos: int) -> Option<(Record, int)> {
    match mark_at(bytes, pos, 0x7bu8) {
        None => None,
        Some(at1) => match string_at(bytes, at1) {
            None => None,
            Some((tag, at2)) => match mark_at(bytes, at2, 0x3au8) {
                None => None,
                Some(at3) => match body_at(bytes, tag, at3) {
                    None => None,
                    Some((rec, at4)) => match mark_at(bytes, at4, 0x7du8) {
                        None => None,
                        Some(at5) => Some((rec, at5)),
                    },
                },
            },
        },
    }
}

/// One step of reading a segment front to back.
pub enum Step {
    /// Nothing but white space is left.
    End,
    /// A record, and the position behind it.
    Item(Record, int),
    /// The bytes that are left do not start with a record.
    Malformed,
}

/// The step that a reader at `pos` takes.
pub open spec fn next_step(bytes: Seq<u8>, pos: int) -> Step {
    if skip_blank(bytes, pos) >= bytes.len() {
        Step::End
    } else {
        match record_at(bytes, pos) {
            Some((r, end)) => Step::Item(r, end),
            None => Step::Malformed,
        }
    }
}

/// The record that `bytes` hold, where they hold exactly one, with nothing
/// but white space around it.
pub open spec fn sole_record(bytes: Seq<u8>) -> Option<Record> {
    match record_at(bytes, 0) {
        Some((r, end)) => if skip_blank(bytes, end) >= bytes.len() {
            Some(r)
        } else {
            None
        },
        None => None,
    }
}

/// `skip_blank` stays within the bytes and never goes back.
pub proof fn lemma_skip_blank_bounds(bytes: Seq<u8>, pos: int)
    requires
        0 <= pos <= bytes.len(),
    ensures
        pos <= skip_blank(bytes, pos) <= bytes.len(),
    decreases bytes.len() - pos,
{
    if pos < bytes.len() && is_blank(bytes[pos]) {
        lemma_skip_blank_bounds(bytes, pos + 1);
    }
}

/// The body of a record ends within the bytes.
pub proof fn lemma_body_at_bounds(bytes: Seq<u8>, tag: Seq<char>, pos: int)
    requires
        0 <= pos <= bytes.len(),
    ensures
        body_at(bytes, tag, pos) matches Some((_, end)) ==> pos <= end <= bytes.len(),
{
    lemma_string_at_bounds(bytes, pos);
    if tag == set_tag() {
        lemma_skip_blank_bounds(bytes, pos);
        if let Some(at1) = mark_at(bytes, pos, 0x5bu8) {
            lemma_string_at_bounds(bytes, at1);
            if let Some((key, at2)) = string_at(bytes, at1) {
                lemma_skip_blank_bounds(bytes, at2);
                if let Some(at3) = mark_at(bytes, at2, 0x2cu8) {
                    lemma_string_at_bounds(bytes, at3);
                    if let Some((value, at4)) = string_at(bytes, at3) {
                        lemma_skip_blank_bounds(bytes, at4);
                    }
                }
            }
        }
    }
}

/// Passes over white space.
fn pass_blank(bytes: &[u8], pos: usize) -> (r: usize)
    requires
        pos <= bytes.len(),
    ensures
        r == skip_blank(bytes@, pos as int),
        pos <= r <= bytes.len(),
{
    let mut p = pos;
    while p < bytes.len() && (bytes[p] == 0x20u8 || bytes[p] == 0x0au8 || bytes[p] == 0x09u8
        || bytes[p] == 0x0du8)
        invariant
            pos <= p <= bytes.len(),
            skip_blank(bytes@, p as int) == skip_blank(bytes@, pos as int),
        decreases bytes.len() - p,
    {
        p += 1;
    }
    p
}

/// Reads the byte `b` behind white space.
fn read_mark(bytes: &[u8], pos: usize, b: u8) -> (r: Option<usize>)
    requires
        pos <= bytes.len(),
    ensures
        r matches Some(p) ==> mark_at(bytes@, pos as int, b) == Some(p as int) && pos < p
            <= bytes.len(),
        r is None ==> mark_at(bytes@, pos as int, b) is None,
{
    let p = pass_blank(bytes, pos);
    if p < bytes.len() && bytes[p] == b {
        Some(p + 1)
    } else {
        None
    }
}

/// The closing quote is found at or behind `pos`, within the bytes or at
/// their end.
pub proof fn lemma_closing_quote_bounds(bytes: Seq<u8>, pos: int)
    requires
        0 <= pos,
    ensures
        pos <= closing_quote(bytes, pos) || closing_quote(bytes, pos) == bytes.len(),
        closing_quote(bytes, pos) <= bytes.len(),
        closing_quote(bytes, pos) < bytes.len() ==> bytes[closing_quote(bytes, pos)] == 0x22u8,
    decreases bytes.len() - pos,
{
    if pos < bytes.len() && bytes[pos] != 0x22u8 {
        if bytes[pos] == 0x5cu8 {
            if pos + 1 < bytes.len() {
                lemma_closing_quote_bounds(bytes, pos + 2);
            }
        } else {
            lemma_closing_quote_bounds(bytes, pos + 1);
        }
    }
}

/// A JSON string takes at least one byte and ends within the bytes.
pub proof fn lemma_string_at_bounds(bytes: Seq<u8>, pos: int)
    requires
        0 <= pos <= bytes.len(),
    ensures
        string_at(bytes, pos) matches Some((_, end)) ==> pos < end <= bytes.len(),
{
    lemma_skip_blank_bounds(bytes, pos);
    lemma_closing_quote_bounds(bytes, skip_blank(bytes, pos) + 1);
}

/// Finds the quote that closes a JSON string.
fn find_closing_quote(bytes: &[u8], pos: usize) -> (r: usize)
    requires
        pos <= bytes.len(),
    ensures
        r == closing_quote(bytes@, pos as int),
        r <= bytes.len(),
        r < bytes.len() ==> pos <= r,
{
    let mut p = pos;
    while p < bytes.len() && bytes[p] != 0x22u8
        invariant
            pos <= p,
            closing_quote(bytes@, p as int) == closing_quote(bytes@, pos as int),
        decreases bytes.len() - p,
    {
        if bytes[p] == 0x5cu8 {
            if bytes.len() - p < 2 {
                return bytes.len();
            }
            p += 2;
        } else {
            p += 1;
        }
    }
    if p < bytes.len() {
        p
    } else {
        bytes.len()
    }
}

/// Reads a JSON string at `pos`.
fn read_string(bytes: &[u8], pos: usize) -> (r: Option<(String, usize)>)
    requires
        pos <= bytes.len(),
    ensures
        r matches Some((s, p)) ==> string_at(bytes@, pos as int) == Some((s@, p as int)) && pos
            < p <= bytes.len(),
        r is None ==> string_at(bytes@, pos as int) is None,
{
    let p = pass_blank(bytes, pos);
    if p >= bytes.len() || bytes[p] != 0x22u8 {
        return None;
    }
    let q = find_closing_quote(bytes, p + 1);
    if q >= bytes.len() {
        return None;
    }
    match read_json_string(slice_subrange(bytes, p, q + 1)) {
        Some(s) => Some((s, q + 1)),
        None => None,
    }
}

/// Reads the two texts of a `Set` record.
fn read_pair(bytes: &[u8], pos: usize) -> (r: Option<(Command, usize)>)
    requires
        pos <= bytes.len(),
    ensures
        r matches Some((c, p)) ==> pair_at(bytes@, pos as int) == Some((c@, p as int)) && pos <= p
            <= bytes.len(),
        r is None ==> pair_at(bytes@, pos as int) is None,
{
    let at1 = match read_mark(bytes, pos, 0x5bu8) {
        Some(p) => p,
        None => {
            return None;
        },
    };
    let (key, at2) = match read_string(bytes, at1) {
        Some(x) => x,
        None => {
            return None;
        },
    };
    let at3 = match read_mark(bytes, at2, 0x2cu8) {
        Some(p) => p,
        None => {
            return None;
        },
    };
    let (value, at4) = match read_string(bytes, at3) {
        Some(x) => x,
        None => {
            return None;
        },
    };
    match read_mark(bytes, at4, 0x5du8) {
        Some(at5) => Some((Command::Put(key, value), at5)),
        None => None,
    }
}

/// Reads what stands behind the colon of a record.
fn read_body(bytes: &[u8], tag: &str, pos: usize) -> (r: Option<(Command, usize)>)
    requires
        pos <= bytes.len(),
    ensures
        r matches Some((c, p)) ==> body_at(bytes@, tag@, pos as int) == Some((c@, p as int)) && pos
            <= p <= bytes.len(),
        r is None ==> body_at(bytes@, tag@, pos as int) is None,
{
    proof {
        reveal_strlit("Set");
        reveal_strlit("Rm");
        reveal_strlit("Get");
        assert("Set"@ =~= set_tag());
        assert("Rm"@ =~= rm_tag());
        assert("Get"@ =~= get_tag());
    }
    if str_equal(tag, "Set") {
        read_pair(bytes, pos)
    } else if str_equal(tag, "Rm") {
        match read_string(bytes, pos) {
            Some((key, p)) => Some((Command::Rm(key), p)),
            None => None,
        }
    } else if str_equal(tag, "Get") {
        match read_string(bytes, pos) {
            Some((key, p)) => Some((Command::Get(key), p)),
            None => None,
        }
    } else {
        None
    }
}

/// Reads the record that starts at `pos`.
pub fn decode_record_at(bytes: &[u8], pos: usize) -> (r: Option<(Command, usize)>)
    requires
        pos <= bytes.len(),
    ensures
        r matches Some((c, p)) ==> record_at(bytes@, pos as int) == Some((c@, p as int)) && pos < p
            <= bytes.len(),
        r is None ==> record_at(bytes@, pos as int) is None,
{
    let at1 = match read_mark(bytes, pos, 0x7bu8) {
        Some(p) => p,
        None => {
            return None;
        },
    };
    let (tag, at2) = match read_string(bytes, at1) {
        Some(x) => x,
        None => {
            return None;
        },
    };
    let at3 = match read_mark(bytes, at2, 0x3au8) {
        Some(p) => p,
        None => {
            return None;
        },
    };
    let (cmd, at4) = match read_body(bytes, tag.as_str(), at3) {
        Some(x) => x,
        None => {
            return None;
        },
    };
    match read_mark(bytes, at4, 0x7du8) {
        Some(at5) => Some((cmd, at5)),
        None => None,
    }
}

/// One step of reading a segment front to back, as it is computed.
pub enum Decoded {
    /// Nothing but white space is left.
    End,
    /// A record, and the position behind it.
    Item(Command, usize),
    /// The bytes that are left do not start with a record.
    Malformed,
}

impl View for Decoded {
    type V = Step;

    open spec fn view(&self) -> Step {
        match self {
            Decoded::End => Step::End,
            Decoded::Item(c, p) => Step::Item(c@, *p as int),
            Decoded::Malformed => Step::Malformed,
        }
    }
}

/// Takes one step of reading a segment: the record at `pos`, the end of the
/// segment, or the finding that the bytes are damaged.
pub fn decode_next(bytes: &[u8], pos: usize) -> (r: Decoded)
    requires
        pos <= bytes.len(),
    ensures
        r@ == next_step(bytes@, pos as int),
        r matches Decoded::Item(_, p) ==> pos < p <= bytes.len(),
{
    let p = pass_blank(bytes, pos);
    if p >= bytes.len() {
        Decoded::End
    } else {
        match decode_record_at(bytes, pos) {
            Some((c, end)) => Decoded::Item(c, end),
            None => Decoded::Malformed,
        }
    }
}

/// Reads the one record that `bytes` hold. Bytes that hold no record, or
/// anything but white space around it, are damaged.
pub fn decode_command(bytes: &[u8]) -> (r: Result<Command, KvsError>)
    ensures
        r matches Ok(c) ==> sole_record(bytes@) == Some(c@),
        r matches Err(e) ==> sole_record(bytes@) is None && e@ == crate::errors::Fault::SerDe,
{
    match decode_record_at(bytes, 0) {
        Some((c, end)) => {
            let p = pass_blank(bytes, end);
            if p >= bytes.len() {
                Ok(c)
            } else {
                Err(KvsError::SerDeError)
            }
        },
        None => Err(KvsError::SerDeError),
    }
}

/// Whether the codec reads the record back from the bytes it writes for
/// it.
pub open spec fn reads_back(rec: Record) -> bool {
    sole_record(encoding(rec)) == Some(rec)
}

/// Whether two commands are the same command.
pub fn same_command(a: &Command, b: &Command) -> (r: bool)
    ensures
        r == (a@ == b@),
{
    match (a, b) {
        (Command::Put(k1, v1), Command::Put(k2, v2)) => *k1 == *k2 && *v1 == *v2,
        (Command::Rm(k1), Command::Rm(k2)) => *k1 == *k2,
        (Command::Get(k1), Command::Get(k2)) => *k1 == *k2,
        _ => false,
    }
}

/// Writes the command, reads the bytes again, and tells whether the same
/// command came back: whether the codec reads this record back.
pub fn read_back(cmd: &Command) -> (r: bool)
    ensures
        r == reads_back(cmd@),
{
    match encode_command(cmd) {
        Ok(bytes) => match decode_command(bytes.as_slice()) {
            Ok(back) => same_command(cmd, &back),
            Err(_) => false,
        },
        Err(_) => false,
    }
}

/// A result of reading, moved on by the `n` bytes that stand before what
/// was read.
pub open spec fn moved<A>(r: Option<(A, int)>, n: int) -> Option<(A, int)> {
    match r {
        Some((a, end)) => Some((a, end + n)),
        None => None,
    }
}

/// White space is passed over in the same way behind any bytes.
pub proof fn lemma_skip_blank_behind(before: Seq<u8>, bytes: Seq<u8>, pos: int)
    requires
        0 <= pos <= bytes.len(),
    ensures
        skip_blank(before + bytes, before.len() + pos) == before.len() + skip_blank(bytes, pos),
    decreases bytes.len() - pos,
{
    let all = before + bytes;
    if pos < bytes.len() {
        assert(all[before.len() + pos] == bytes[pos]);
        if is_blank(bytes[pos]) {
            lemma_skip_blank_behind(before, bytes, pos + 1);
        }
    }
}

/// A byte is read in the same way behind any bytes.
pub proof fn lemma_mark_at_behind(before: Seq<u8>, bytes: Seq<u8>, pos: int, b: u8)
    requires
        0 <= pos <= bytes.len(),
    ensures
        mark_at(before + bytes, before.len() + pos, b) == (match mark_at(bytes, pos, b) {
            Some(p) => Some(p + before.len()),
            None => None,
        }),
        mark_at(bytes, pos, b) matches Some(p) ==> pos < p <= bytes.len(),
{
    lemma_skip_blank_behind(before, bytes, pos);
    lemma_skip_blank_bounds(bytes, pos);
    let p = skip_blank(bytes, pos);
    if p < bytes.len() {
        assert((before + bytes)[before.len() + p] == bytes[p]);
    }
}

/// The closing quote is found in the same way behind any bytes.
pub proof fn lemma_closing_quote_behind(before: Seq<u8>, bytes: Seq<u8>, pos: int)
    requires
        0 <= pos,
    ensures
        closing_quote(before + bytes, before.len() + pos) == before.len() + closing_quote(
            bytes,
            pos,
        ),
    decreases bytes.len() - pos,
{
    let all = before + bytes;
    if pos < bytes.len() {
        assert(all[before.len() + pos] == bytes[pos]);
        if bytes[pos] != 0x22u8 {
            if bytes[pos] == 0x5cu8 {
                if pos + 1 < bytes.len() {
                    lemma_closing_quote_behind(before, bytes, pos + 2);
                }
            } else {
                lemma_closing_quote_behind(before, bytes, pos + 1);
            }
        }
    }
}

/// A JSON string is read in the same way behind any bytes.
pub proof fn lemma_string_at_behind(before: Seq<u8>, bytes: Seq<u8>, pos: int)
    requires
        0 <= pos <= bytes.len(),
    ensures
        string_at(before + bytes, before.len() + pos) == moved(
            string_at(bytes, pos),
            before.len() as int,
        ),
        string_at(bytes, pos) matches Some((_, p)) ==> pos < p <= bytes.len(),
{
    let all = before + bytes;
    lemma_skip_blank_behind(before, bytes, pos);
    lemma_skip_blank_bounds(bytes, pos);
    let p = skip_blank(bytes, pos);
    lemma_closing_quote_behind(before, bytes, p + 1);
    lemma_closing_quote_bounds(bytes, p + 1);
    let q = closing_quote(bytes, p + 1);
    if p < bytes.len() {
        assert(all[before.len() + p] == bytes[p]);
        if q < bytes.len() {
            assert(all.subrange(before.len() + p, before.len() + q + 1) =~= bytes.subrange(
                p,
                q + 1,
            ));
        }
    }
}

/// The two texts of a `Set` record are read in the same way behind any
/// bytes.
pub proof fn lemma_pair_at_behind(before: Seq<u8>, bytes: Seq<u8>, pos: int)
    requires
        0 <= pos <= bytes.len(),
    ensures
        pair_at(before + bytes, before.len() + pos) == moved(
            pair_at(bytes, pos),
            before.len() as int,
        ),
        pair_at(bytes, pos) matches Some((_, p)) ==> pos <= p <= bytes.len(),
{
    lemma_mark_at_behind(before, bytes, pos, 0x5bu8);
    if let Some(at1) = mark_at(bytes, pos, 0x5bu8) {
        lemma_string_at_behind(before, bytes, at1);
        if let Some((key, at2)) = string_at(bytes, at1) {
            lemma_mark_at_behind(before, bytes, at2, 0x2cu8);
            if let Some(at3) = mark_at(bytes, at2, 0x2cu8) {
                lemma_string_at_behind(before, bytes, at3);
                if let Some((value, at4)) = string_at(bytes, at3) {
                    lemma_mark_at_behind(before, bytes, at4, 0x5du8);
                }
            }
        }
    }
}

/// A record is read in the same way behind any bytes.
pub proof fn lemma_record_at_behind(before: Seq<u8>, bytes: Seq<u8>, pos: int)
    requires
        0 <= pos <= bytes.len(),
    ensures
        record_at(before + bytes, before.len() + pos) == moved(
            record_at(bytes, pos),
            before.len() as int,
        ),
{
    lemma_mark_at_behind(before, bytes, pos, 0x7bu8);
    if let Some(at1) = mark_at(bytes, pos, 0x7bu8) {
        lemma_string_at_behind(before, bytes, at1);
        if let Some((tag, at2)) = string_at(bytes, at1) {
            lemma_mark_at_behind(before, bytes, at2, 0x3au8);
            if let Some(at3) = mark_at(bytes, at2, 0x3au8) {
                lemma_pair_at_behind(before, bytes, at3);
                lemma_string_at_behind(before, bytes, at3);
                lemma_body_at_bounds(bytes, tag, at3);
                if let Some((rec, at4)) = body_at(bytes, tag, at3) {
                    lemma_mark_at_behind(before, bytes, at4, 0x7du8);
                }
            }
        }
    }
}

/// Whether the codec reads the record back from the bytes it writes for
/// it, whatever follows them, and finds its end where these bytes end.
pub open spec fn reads_first(rec: Record) -> bool {
    forall|rest: Seq<u8>| #[trigger]
        record_at(encoding(rec) + rest, 0) == Some((rec, encoding(rec).len() as int))
}

/// The bytes of a record start with an opening brace.
pub proof fn lemma_encoding_starts(rec: Record)
    ensures
        encoding(rec).len() >= 2,
        encoding(rec)[0] == 0x7bu8,
{
}

/// Where the bytes of a record that the codec reads back stand between
/// other bytes, a reader at their start finds that record, and its end at
/// their end.
pub proof fn lemma_reads_in_place(before: Seq<u8>, rec: Record, rest: Seq<u8>)
    requires
        reads_first(rec),
    ensures
        next_step(before + encoding(rec) + rest, before.len() as int) == Step::Item(
            rec,
            (before.len() + encoding(rec).len()) as int,
        ),
{
    let tail = encoding(rec) + rest;
    let all = before + encoding(rec) + rest;
    assert(all =~= before + tail);
    lemma_encoding_starts(rec);
    assert(tail[0] == 0x7bu8);
    lemma_skip_blank_behind(before, tail, 0);
    lemma_record_at_behind(before, tail, 0);
    assert(record_at(encoding(rec) + rest, 0) == Some((rec, encoding(rec).len() as int)));
}

/// White space is passed over in the same way before any bytes, where it
/// ends before them.
pub proof fn lemma_skip_blank_ahead(bytes: Seq<u8>, rest: Seq<u8>, pos: int)
    requires
        0 <= pos <= bytes.len(),
        skip_blank(bytes, pos) < bytes.len(),
    ensures
        skip_blank(bytes + rest, pos) == skip_blank(bytes, pos),
    decreases bytes.len() - pos,
{
    if pos < bytes.len() {
        assert((bytes + rest)[pos] == bytes[pos]);
        if is_blank(bytes[pos]) {
            lemma_skip_blank_ahead(bytes, rest, pos + 1);
        }
    }
}

/// A byte that was read is read in the same way before any bytes.
pub proof fn lemma_mark_at_ahead(bytes: Seq<u8>, rest: Seq<u8>, pos: int, b: u8)
    requires
        0 <= pos <= bytes.len(),
        mark_at(bytes, pos, b) is Some,
    ensures
        mark_at(bytes + rest, pos, b) == mark_at(bytes, pos, b),
        mark_at(bytes, pos, b) matches Some(p) && pos < p <= bytes.len(),
{
    lemma_skip_blank_bounds(bytes, pos);
    lemma_skip_blank_ahead(bytes, rest, pos);
    let p = skip_blank(bytes, pos);
    assert((bytes + rest)[p] == bytes[p]);
}

/// A closing quote that was found is found in the same way before any
/// bytes.
pub proof fn lemma_closing_quote_ahead(bytes: Seq<u8>, rest: Seq<u8>, pos: int)
    requires
        0 <= pos,
        closing_quote(bytes, pos) < bytes.len(),
    ensures
        closing_quote(bytes + rest, pos) == closing_quote(bytes, pos),
    decreases bytes.len() - pos,
{
    if pos < bytes.len() {
        assert((bytes + rest)[pos] == bytes[pos]);
        if bytes[pos] != 0x22u8 {
            if bytes[pos] == 0x5cu8 {
                if pos + 1 < bytes.len() {
                    lemma_closing_quote_ahead(bytes, rest, pos + 2);
                }
            } else {
                lemma_closing_quote_ahead(bytes, rest, pos + 1);
            }
        }
    }
}

/// A JSON string that was read is read in the same way before any bytes.
pub proof fn lemma_string_at_ahead(bytes: Seq<u8>, rest: Seq<u8>, pos: int)
    requires
        0 <= pos <= bytes.len(),
        string_at(bytes, pos) is Some,
    ensures
        string_at(bytes + rest, pos) == string_at(bytes, pos),
        string_at(bytes, pos) matches Some((_, p)) && pos < p <= bytes.len(),
{
    lemma_skip_blank_bounds(bytes, pos);
    lemma_skip_blank_ahead(bytes, rest, pos);
    let p = skip_blank(bytes, pos);
    lemma_closing_quote_bounds(bytes, p + 1);
    lemma_closing_quote_ahead(bytes, rest, p + 1);
    let q = closing_quote(bytes, p + 1);
    assert((bytes + rest)[p] == bytes[p]);
    assert((bytes + rest).subrange(p, q + 1) =~= bytes.subrange(p, q + 1));
}

/// The two texts of a `Set` record that were read are read in the same
/// way before any bytes.
pub proof fn lemma_pair_at_ahead(bytes: Seq<u8>, rest: Seq<u8>, pos: int)
    requires
        0 <= pos <= bytes.len(),
        pair_at(bytes, pos) is Some,
    ensures
        pair_at(bytes + rest, pos) == pair_at(bytes, pos),
        pair_at(bytes, pos) matches Some((_, p)) && pos < p <= bytes.len(),
{
    lemma_mark_at_ahead(bytes, rest, pos, 0x5bu8);
    let at1 = mark_at(bytes, pos, 0x5bu8).unwrap();
    lemma_string_at_ahead(bytes, rest, at1);
    let at2 = string_at(bytes, at1).unwrap().1;
    lemma_mark_at_ahead(bytes, rest, at2, 0x2cu8);
    let at3 = mark_at(bytes, at2, 0x2cu8).unwrap();
    lemma_string_at_ahead(bytes, rest, at3);
    let at4 = string_at(bytes, at3).unwrap().1;
    lemma_mark_at_ahead(bytes, rest, at4, 0x5du8);
}

/// A record that was read is read in the same way before any bytes.
pub proof fn lemma_record_at_ahead(bytes: Seq<u8>, rest: Seq<u8>, pos: int)
    requires
        0 <= pos <= bytes.len(),
        record_at(bytes, pos) is Some,
    ensures
        record_at(bytes + rest, pos) == record_at(bytes, pos),
        record_at(bytes, pos) matches Some((_, p)) && pos < p <= bytes.len(),
{
    lemma_mark_at_ahead(bytes, rest, pos, 0x7bu8);
    let at1 = mark_at(bytes, pos, 0x7bu8).unwrap();
    lemma_string_at_ahead(bytes, rest, at1);
    let tag = string_at(bytes, at1).unwrap().0;
    let at2 = string_at(bytes, at1).unwrap().1;
    lemma_mark_at_ahead(bytes, rest, at2, 0x3au8);
    let at3 = mark_at(bytes, at2, 0x3au8).unwrap();
    if tag == set_tag() {
        lemma_pair_at_ahead(bytes, rest, at3);
    } else {
        lemma_string_at_ahead(bytes, rest, at3);
    }
    let at4 = body_at(bytes, tag, at3).unwrap().1;
    lemma_mark_at_ahead(bytes, rest, at4, 0x7du8);
}

/// White space ends at the latest where a byte stands that is none.
pub proof fn lemma_skip_blank_stops(bytes: Seq<u8>, pos: int, i: int)
    requires
        0 <= pos <= i < bytes.len(),
        !is_blank(bytes[i]),
    ensures
        skip_blank(bytes, pos) <= i,
    decreases i - pos,
{
    if pos < i && is_blank(bytes[pos]) {
        lemma_skip_blank_stops(bytes, pos + 1, i);
    }
}

/// A record that the codec reads back from exactly its bytes is read back
/// from them whatever follows, and its end is found where they end: what
/// `read_back` tells of a command holds of its record in every segment.
pub proof fn lemma_reads_first(rec: Record)
    requires
        reads_back(rec),
    ensures
        reads_first(rec),
{
    let bytes = encoding(rec);
    let n = bytes.len() as int;
    lemma_encoding_starts(rec);
    assert(bytes[n - 1] == 0x7du8);
    let end = record_at(bytes, 0).unwrap().1;
    lemma_record_at_ahead(bytes, Seq::<u8>::empty(), 0);
    if end < n {
        lemma_skip_blank_stops(bytes, end, n - 1);
    }
    assert forall|rest: Seq<u8>| #[trigger]
        record_at(bytes + rest, 0) == Some((rec, n)) by {
        lemma_record_at_ahead(bytes, rest, 0);
    }
}

} // verus!
