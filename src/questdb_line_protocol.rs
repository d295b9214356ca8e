use vstd::prelude::*;

use crate::error::ProtocolError;
use crate::numeral::{decimal_digits, hex_digits, push_char, push_decimal, push_signed_decimal, signed_decimal};

verus! {

/// Characters that no identifier may contain: `. ? , : \ / NUL ) ( + * ~ % -`.
pub open spec fn is_forbidden(c: char) -> bool {
    c == '.' || c == '?' || c == ',' || c == ':' || c == '\\' || c == '/' || c == '\0'
        || c == ')' || c == '(' || c == '+' || c == '*' || c == '~' || c == '%' || c == '-'
}

/// The first forbidden character of `s`, scanning from the front.
pub open spec fn first_forbidden(s: Seq<char>) -> Option<char>
    decreases s.len(),
{
    if s.len() == 0 {
        None
    } else {
        match first_forbidden(s.drop_last()) {
            Some(c) => Some(c),
            None => if is_forbidden(s.last()) {
                Some(s.last())
            } else {
                None
            },
        }
    }
}

/// The outcome of validating an identifier.
pub open spec fn validity(s: Seq<char>) -> Result<(), ProtocolError> {
    match first_forbidden(s) {
        Some(c) => Err(ProtocolError::ForbiddenCharacter(c)),
        None => Ok(()),
    }
}

/// A forbidden character found in a prefix is the first one of the whole text.
pub proof fn lemma_first_forbidden_prefix(s: Seq<char>, n: int)
    requires
        0 <= n <= s.len(),
        first_forbidden(s.take(n)) is Some,
    ensures
        first_forbidden(s) == first_forbidden(s.take(n)),
    decreases s.len() - n,
{
    if n < s.len() {
        assert(s.take(n + 1).drop_last() == s.take(n));
        lemma_first_forbidden_prefix(s, n + 1);
    } else {
        assert(s.take(n) == s);
    }
}

fn is_forbidden_char(c: char) -> (r: bool)
    ensures
        r == is_forbidden(c),
{
    c == '.' || c == '?' || c == ',' || c == ':' || c == '\\' || c == '/' || c == '\0'
        || c == ')' || c == '(' || c == '+' || c == '*' || c == '~' || c == '%' || c == '-'
}

/// Checks that `s` may serve as an identifier; reports the first forbidden
/// character otherwise.
pub fn check_valid(s: &str) -> (r: Result<(), ProtocolError>)
    ensures
        r == validity(s@),
{
    for c in it: s.chars()
        invariant
            it.seq() == s@,
            first_forbidden(s@.take(it.index() as int)) is None,
    {
        let ghost prefix = s@.take(it.index() + 1);
        assert(prefix.drop_last() == s@.take(it.index() as int));
        assert(prefix.last() == c);
        if is_forbidden_char(c) {
            assert(first_forbidden(prefix) == Some(c));
            assert(first_forbidden(s@) == Some(c)) by {
                lemma_first_forbidden_prefix(s@, it.index() + 1);
            }
            return Err(ProtocolError::ForbiddenCharacter(c));
        }
    }
    assert(s@.take(s@.len() as int) == s@);
    Ok(())
}

/// Characters that are written with a backslash before them in identifiers
/// and tag values: space, backslash and comma. Comma and backslash are
/// forbidden in identifiers as well, so in a valid name only the space is ever
/// escaped; tag values are not validated and may hold all three.
pub open spec fn is_escaped(c: char) -> bool {
    c == ' ' || c == '\\' || c == ','
}

/// How one character of an identifier or tag value is written.
pub open spec fn escaped_char(c: char) -> Seq<char> {
    if is_escaped(c) {
        seq!['\\', c]
    } else {
        seq![c]
    }
}

/// An identifier or tag value as written on a line.
pub open spec fn escaped(s: Seq<char>) -> Seq<char>
    decreases s.len(),
{
    if s.len() == 0 {
        Seq::empty()
    } else {
        escaped(s.drop_last()) + escaped_char(s.last())
    }
}

/// How one character of a string field value is written.
pub open spec fn quote_escaped_char(c: char) -> Seq<char> {
    if c == '"' {
        seq!['\\', c]
    } else {
        seq![c]
    }
}

/// The inside of a string field value as written on a line: each double quote
/// gets a backslash before it, and nothing else changes.
pub open spec fn quote_escaped(s: Seq<char>) -> Seq<char>
    decreases s.len(),
{
    if s.len() == 0 {
        Seq::empty()
    } else {
        quote_escaped(s.drop_last()) + quote_escaped_char(s.last())
    }
}

fn is_escaped_char(c: char) -> (r: bool)
    ensures
        r == is_escaped(c),
{
    c == ' ' || c == '\\' || c == ','
}

/// Appends `s` to `out`, with a backslash before each space, backslash and
/// comma.
fn push_escaped(out: &mut String, s: &str)
    ensures
        final(out)@ == old(out)@ + escaped(s@),
{
    for c in it: s.chars()
        invariant
            it.seq() == s@,
            out@ == old(out)@ + escaped(s@.take(it.index() as int)),
    {
        let ghost prefix = s@.take(it.index() + 1);
        assert(prefix.drop_last() == s@.take(it.index() as int));
        assert(prefix.last() == c);
        if is_escaped_char(c) {
            push_char(out, '\\');
        }
        push_char(out, c);
        assert(out@ == old(out)@ + escaped(prefix));
    }
    assert(s@.take(s@.len() as int) == s@);
}

/// `s` with a backslash before each space, backslash and comma.
pub fn escape(s: &str) -> (r: String)
    ensures
        r@ == escaped(s@),
{
    let mut r = String::new();
    push_escaped(&mut r, s);
    assert(r@ == escaped(s@));
    r
}

/// A 256-bit unsigned integer, as four 64-bit words, least significant first.
#[derive(Debug, Clone, Copy, PartialEq, Eq)]
pub struct Uint256 {
    pub words: [u64; 4],
}

impl Uint256 {
    /// The number that the words stand for.
    pub open spec fn value(&self) -> nat {
        self.words@[0] as nat + self.words@[1] as nat * 0x1_0000_0000_0000_0000
            + self.words@[2] as nat * 0x1_0000_0000_0000_0000_0000_0000_0000_0000
            + self.words@[3] as nat * 0x1_0000_0000_0000_0000_0000_0000_0000_0000_0000_0000_0000_0000
    }

    /// The number `v`.
    pub fn from_u64(v: u64) -> (r: Uint256)
        ensures
            r.value() == v,
    {
        Uint256 { words: [v, 0, 0, 0] }
    }
}

/// The alternate lowercase hexadecimal form of `n`: `0x`, then its digits.
/// Relies on the `LowerHex` impl of `primitive_types::U256` with the `#`
/// flag: `0x` and the lowercase digits without leading zeros (`0x0` for zero),
/// with the words read least significant first.
#[verifier::external_body]
fn lower_hex_u256(n: &Uint256) -> (r: String)
    ensures
        r@ == seq!['0', 'x'] + hex_digits(n.value()),
{
    format!("{:#x}", primitive_types::U256(n.words))
}

/// The value of one field of a measurement.
#[derive(Debug, Clone, Copy)]
pub enum ColumnValue<'a> {
    /// A signed integer, written in decimal with an `i` after it.
    Integer(i64),
    /// A 256-bit unsigned integer, written as `0x` and lowercase hexadecimal
    /// digits with an `i` after them.
    Long256(Uint256),
    /// A floating-point number, held as the text of its default decimal
    /// rendering, which is written as it is.
    Float(&'a str),
    /// `true` or `false`.
    Boolean(bool),
    /// Text, written between double quotes with each inner double quote
    /// escaped by a backslash.
    String(&'a str),
    /// Nanoseconds, written in decimal with a `t` after them.
    Timestamp(u64),
}

/// How a field value is written on a line.
pub open spec fn rendered<'a>(v: ColumnValue<'a>) -> Seq<char> {
    match v {
        ColumnValue::Integer(i) => signed_decimal(i as int).push('i'),
        ColumnValue::Long256(n) => seq!['0', 'x'] + hex_digits(n.value()) + seq!['i'],
        ColumnValue::Float(text) => text@,
        ColumnValue::Boolean(b) => if b {
            seq!['t', 'r', 'u', 'e']
        } else {
            seq!['f', 'a', 'l', 's', 'e']
        },
        ColumnValue::String(text) => seq!['"'] + quote_escaped(text@) + seq!['"'],
        ColumnValue::Timestamp(t) => decimal_digits(t as nat).push('t'),
    }
}

/// Appends each character of `s` to `out`.
fn push_str(out: &mut String, s: &str)
    ensures
        final(out)@ == old(out)@ + s@,
{
    for c in it: s.chars()
        invariant
            it.seq() == s@,
            out@ == old(out)@ + s@.take(it.index() as int),
    {
        assert(s@.take(it.index() + 1) == s@.take(it.index() as int).push(c));
        push_char(out, c);
    }
    assert(s@.take(s@.len() as int) == s@);
}

impl<'a> ColumnValue<'a> {
    /// `s` with a backslash before each double quote.
    fn escape(s: &str) -> (r: String)
        ensures
            r@ == quote_escaped(s@),
    {
        let mut r = String::new();
        for c in it: s.chars()
            invariant
                it.seq() == s@,
                r@ == quote_escaped(s@.take(it.index() as int)),
        {
            let ghost prefix = s@.take(it.index() + 1);
            assert(prefix.drop_last() == s@.take(it.index() as int));
            assert(prefix.last() == c);
            if c == '"' {
                push_char(&mut r, '\\');
            }
            push_char(&mut r, c);
            assert(r@ == quote_escaped(prefix));
        }
        assert(s@.take(s@.len() as int) == s@);
        r
    }

    /// Appends the rendering of this value to `out`.
    fn push_rendered(&self, out: &mut String)
        ensures
            final(out)@ == old(out)@ + rendered(*self),
    {
        match self {
            ColumnValue::Integer(i) => {
                push_signed_decimal(out, *i);
                push_char(out, 'i');
            },
            ColumnValue::Long256(n) => {
                let hex = lower_hex_u256(n);
                push_str(out, hex.as_str());
                push_char(out, 'i');
            },
            ColumnValue::Float(text) => {
                push_str(out, text);
            },
            ColumnValue::Boolean(b) => {
                if *b {
                    push_char(out, 't');
                    push_char(out, 'r');
                    push_char(out, 'u');
                    push_char(out, 'e');
                } else {
                    push_char(out, 'f');
                    push_char(out, 'a');
                    push_char(out, 'l');
                    push_char(out, 's');
                    push_char(out, 'e');
                }
            },
            ColumnValue::String(text) => {
                push_char(out, '"');
                let inner = ColumnValue::escape(text);
                push_str(out, inner.as_str());
                push_char(out, '"');
            },
            ColumnValue::Timestamp(t) => {
                push_decimal(out, *t);
                push_char(out, 't');
            },
        }
        assert(out@ == old(out)@ + rendered(*self));
    }

    /// The text of this value as a line carries it.
    pub fn to_string(&self) -> (r: String)
        ensures
            r@ == rendered(*self),
    {
        let mut r = String::new();
        self.push_rendered(&mut r);
        assert(r@ == rendered(*self));
        r
    }
}

/// One measurement: a table name, tags and fields in the order in which they
/// are written, and an optional timestamp in nanoseconds since the epoch.
#[derive(Debug, Clone)]
pub struct DataPoint<'a> {
    pub table: &'a str,
    pub symbol_set: Vec<(&'a str, &'a str)>,
    pub column_set: Vec<(&'a str, ColumnValue<'a>)>,
    pub timestamp: Option<u64>,
}

/// The first invalid tag key, in order.
pub open spec fn tag_keys_validity<'a>(tags: Seq<(&'a str, &'a str)>) -> Result<(), ProtocolError>
    decreases tags.len(),
{
    if tags.len() == 0 {
        Ok(())
    } else {
        match tag_keys_validity(tags.drop_last()) {
            Ok(()) => validity(tags.last().0@),
            Err(e) => Err(e),
        }
    }
}

/// The first invalid field key, in order.
pub open spec fn field_keys_validity<'a>(fields: Seq<(&'a str, ColumnValue<'a>)>) -> Result<
    (),
    ProtocolError,
>
    decreases fields.len(),
{
    if fields.len() == 0 {
        Ok(())
    } else {
        match field_keys_validity(fields.drop_last()) {
            Ok(()) => validity(fields.last().0@),
            Err(e) => Err(e),
        }
    }
}

/// One tag as written on a line: a comma, the key, `=` and the value.
pub open spec fn tag_text(key: Seq<char>, value: Seq<char>) -> Seq<char> {
    seq![','] + escaped(key) + seq!['='] + escaped(value)
}

/// The tags as written on a line, in order.
pub open spec fn tags_text<'a>(tags: Seq<(&'a str, &'a str)>) -> Seq<char>
    decreases tags.len(),
{
    if tags.len() == 0 {
        Seq::empty()
    } else {
        tags_text(tags.drop_last()) + tag_text(tags.last().0@, tags.last().1@)
    }
}

/// What comes before the field at `index`: a space before the first, a comma
/// before each other.
pub open spec fn field_separator(index: int) -> char {
    if index == 0 {
        ' '
    } else {
        ','
    }
}

/// One field as written on a line after its separator: the key, `=` and the
/// rendered value.
pub open spec fn field_text<'a>(key: Seq<char>, value: ColumnValue<'a>) -> Seq<char> {
    escaped(key) + seq!['='] + rendered(value)
}

/// The fields as written on a line, in order, each after its separator.
pub open spec fn fields_text<'a>(fields: Seq<(&'a str, ColumnValue<'a>)>) -> Seq<char>
    decreases fields.len(),
{
    if fields.len() == 0 {
        Seq::empty()
    } else {
        fields_text(fields.drop_last()) + seq![field_separator(fields.len() - 1)] + field_text(
            fields.last().0@,
            fields.last().1,
        )
    }
}

/// The timestamp at the end of a line: a space and its decimal digits, or
/// nothing.
pub open spec fn timestamp_text(timestamp: Option<u64>) -> Seq<char> {
    match timestamp {
        Some(t) => seq![' '] + decimal_digits(t as nat),
        None => Seq::empty(),
    }
}

/// The line of a measurement whose identifiers are all valid.
pub open spec fn line_text<'a>(p: DataPoint<'a>) -> Seq<char> {
    escaped(p.table@) + tags_text(p.symbol_set@) + fields_text(p.column_set@) + timestamp_text(
        p.timestamp,
    ) + seq!['\n']
}

/// The outcome of encoding a measurement: the first forbidden character among
/// the table name, then the tag keys, then the field keys; or else its line.
pub open spec fn encoding<'a>(p: DataPoint<'a>) -> Result<Seq<char>, ProtocolError> {
    match validity(p.table@) {
        Err(e) => Err(e),
        Ok(()) => match tag_keys_validity(p.symbol_set@) {
            Err(e) => Err(e),
            Ok(()) => match field_keys_validity(p.column_set@) {
                Err(e) => Err(e),
                Ok(()) => Ok(line_text(p)),
            },
        },
    }
}

/// The text that an encoding result stands for.
pub open spec fn result_text(r: Result<String, ProtocolError>) -> Result<Seq<char>, ProtocolError> {
    match r {
        Ok(s) => Ok(s@),
        Err(e) => Err(e),
    }
}

/// A validity failure in a prefix of the tags is that of all the tags.
proof fn lemma_tag_keys_prefix<'a>(tags: Seq<(&'a str, &'a str)>, n: int)
    requires
        0 <= n <= tags.len(),
        tag_keys_validity(tags.take(n)) is Err,
    ensures
        tag_keys_validity(tags) == tag_keys_validity(tags.take(n)),
    decreases tags.len() - n,
{
    if n < tags.len() {
        assert(tags.take(n + 1).drop_last() == tags.take(n));
        lemma_tag_keys_prefix(tags, n + 1);
    } else {
        assert(tags.take(n) == tags);
    }
}

/// A validity failure in a prefix of the fields is that of all the fields.
proof fn lemma_field_keys_prefix<'a>(fields: Seq<(&'a str, ColumnValue<'a>)>, n: int)
    requires
        0 <= n <= fields.len(),
        field_keys_validity(fields.take(n)) is Err,
    ensures
        field_keys_validity(fields) == field_keys_validity(fields.take(n)),
    decreases fields.len() - n,
{
    if n < fields.len() {
        assert(fields.take(n + 1).drop_last() == fields.take(n));
        lemma_field_keys_prefix(fields, n + 1);
    } else {
        assert(fields.take(n) == fields);
    }
}

impl<'a> DataPoint<'a> {
    /// Encodes this measurement as one line of the protocol, ending in a
    /// newline; fails on the first forbidden character of an identifier.
    pub fn encode(&self) -> (r: Result<String, ProtocolError>)
        ensures
            result_text(r) == encoding(*self),
    {
        match check_valid(self.table) {
            Err(e) => return Err(e),
            Ok(()) => {},
        }
        let mut result = escape(self.table);

        let tags = &self.symbol_set;
        let mut i: usize = 0;
        while i < tags.len()
            invariant
                0 <= i <= tags@.len(),
                tags == &self.symbol_set,
                validity(self.table@) is Ok,
                tag_keys_validity(tags@.take(i as int)) is Ok,
                result@ == escaped(self.table@) + tags_text(tags@.take(i as int)),
            decreases tags@.len() - i,
        {
            let (name, value) = tags[i];
            let ghost prefix = tags@.take(i + 1);
            assert(prefix.drop_last() == tags@.take(i as int));
            assert(prefix.last() == (name, value));
            match check_valid(name) {
                Err(e) => {
                    proof {
                        lemma_tag_keys_prefix(tags@, i + 1);
                    }
                    return Err(e);
                },
                Ok(()) => {},
            }
            push_char(&mut result, ',');
            push_escaped(&mut result, name);
            push_char(&mut result, '=');
            push_escaped(&mut result, value);
            assert(result@ == escaped(self.table@) + tags_text(prefix));
            i = i + 1;
        }
        assert(tags@.take(tags@.len() as int) == tags@);

        let fields = &self.column_set;
        let mut j: usize = 0;
        while j < fields.len()
            invariant
                0 <= j <= fields@.len(),
                fields == &self.column_set,
                validity(self.table@) is Ok,
                tag_keys_validity(self.symbol_set@) is Ok,
                field_keys_validity(fields@.take(j as int)) is Ok,
                result@ == escaped(self.table@) + tags_text(self.symbol_set@) + fields_text(
                    fields@.take(j as int),
                ),
            decreases fields@.len() - j,
        {
            let (name, value) = fields[j];
            let ghost prefix = fields@.take(j + 1);
            assert(prefix.drop_last() == fields@.take(j as int));
            assert(prefix.last() == (name, value));
            if j == 0 {
                push_char(&mut result, ' ');
            } else {
                push_char(&mut result, ',');
            }
            match check_valid(name) {
                Err(e) => {
                    proof {
                        lemma_field_keys_prefix(fields@, j + 1);
                    }
                    return Err(e);
                },
                Ok(()) => {},
            }
            push_escaped(&mut result, name);
            push_char(&mut result, '=');
            value.push_rendered(&mut result);
            assert(result@ == escaped(self.table@) + tags_text(self.symbol_set@) + fields_text(
                prefix,
            ));
            j = j + 1;
        }
        assert(fields@.take(fields@.len() as int) == fields@);

        match self.timestamp {
            Some(ts) => {
                push_char(&mut result, ' ');
                push_decimal(&mut result, ts);
            },
            None => {},
        }
        push_char(&mut result, '\n');
        assert(result@ == line_text(*self));
        Ok(result)
    }
}

/// A point in time on the system clock.
#[verifier::external_type_specification]
#[verifier::external_body]
pub struct ExSystemTime(std::time::SystemTime);

/// The failure of measuring time from a later point to an earlier one.
#[verifier::external_type_specification]
#[verifier::external_body]
pub struct ExSystemTimeError(std::time::SystemTimeError);

/// Relies on `SystemTime::now`: some reading of the system clock.
pub assume_specification[ std::time::SystemTime::now ]() -> std::time::SystemTime;

/// Relies on `Duration::as_nanos`: the whole nanoseconds of a span of time.
pub assume_specification[ std::time::Duration::as_nanos ](d: &std::time::Duration) -> u128;

/// The time from the Unix epoch to `t`, or an error when `t` is earlier.
/// Relies on `SystemTime::duration_since` with `UNIX_EPOCH` as the earlier point.
#[verifier::external_body]
fn since_unix_epoch(t: &std::time::SystemTime) -> std::result::Result<
    std::time::Duration,
    std::time::SystemTimeError,
> {
    t.duration_since(std::time::UNIX_EPOCH)
}

/// A timestamp for a measurement from a count of nanoseconds since the epoch:
/// the count modulo 2^64, as the line carries 64 bits; a clock reading from
/// before the epoch counts as zero.
pub open spec fn nanos_timestamp(nanos: Option<u128>) -> u64 {
    match nanos {
        Some(n) => (n % 0x1_0000_0000_0000_0000) as u64,
        None => 0,
    }
}

/// The timestamp for a count of nanoseconds since the epoch, or for a clock
/// reading from before the epoch (`None`).
pub fn timestamp_from_nanos(nanos: Option<u128>) -> (r: u64)
    ensures
        r == nanos_timestamp(nanos),
{
    match nanos {
        Some(n) => (n % 0x1_0000_0000_0000_0000) as u64,
        None => 0,
    }
}

/// The timestamp for a measurement taken now: nanoseconds since the Unix epoch
/// on the system clock, as `timestamp_from_nanos` reduces them.
pub fn now() -> u64 {
    let t = std::time::SystemTime::now();
    let nanos: Option<u128> = match since_unix_epoch(&t) {
        Ok(d) => Some(d.as_nanos()),
        Err(_) => None,
    };
    timestamp_from_nanos(nanos)
}

} // verus!
