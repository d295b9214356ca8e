use vstd::prelude::*;

use crate::error::ProtocolError;
use crate::numeral::{decimal_digits, digit_char, hex_digits, signed_decimal};
use crate::questdb_line_protocol::{
    encoding, escaped, field_separator, field_text, fields_text, line_text, rendered, tag_text,
    tags_text, timestamp_text, result_text, escaped_char, field_keys_validity, first_forbidden, is_escaped,
    is_forbidden, quote_escaped, quote_escaped_char, tag_keys_validity, validity, ColumnValue,
    DataPoint,
};

verus! {

/// Whether `t`, read from the front with each backslash taking the character
/// after it as escaped, holds a space, comma or backslash that no backslash
/// escapes (a backslash at the very end counts as such).
pub open spec fn has_bare_special(t: Seq<char>) -> bool
    decreases t.len(),
{
    if t.len() == 0 {
        false
    } else if t[0] == '\\' {
        if t.len() < 2 {
            true
        } else {
            has_bare_special(t.subrange(2, t.len() as int))
        }
    } else if is_escaped(t[0]) {
        true
    } else {
        has_bare_special(t.subrange(1, t.len() as int))
    }
}

/// `t` with each escaping backslash taken out, read from the front.
pub open spec fn unescaped(t: Seq<char>) -> Seq<char>
    decreases t.len(),
{
    if t.len() == 0 {
        Seq::empty()
    } else if t[0] == '\\' && t.len() >= 2 {
        seq![t[1]] + unescaped(t.subrange(2, t.len() as int))
    } else {
        seq![t[0]] + unescaped(t.subrange(1, t.len() as int))
    }
}

/// Escaping text piece by piece is escaping it whole.
pub proof fn lemma_escaped_concat(a: Seq<char>, b: Seq<char>)
    ensures
        escaped(a + b) == escaped(a) + escaped(b),
    decreases b.len(),
{
    if b.len() == 0 {
        assert(a + b == a);
        assert(escaped(a) + escaped(b) == escaped(a));
    } else {
        assert((a + b).drop_last() == a + b.drop_last());
        assert((a + b).last() == b.last());
        lemma_escaped_concat(a, b.drop_last());
        assert(escaped(a + b) == escaped(a) + escaped(b));
    }
}

/// Escaped text starts with the escaped form of its first character.
proof fn lemma_escaped_first(s: Seq<char>)
    requires
        s.len() > 0,
    ensures
        escaped(s) == escaped_char(s[0]) + escaped(s.drop_first()),
{
    assert(s == seq![s[0]] + s.drop_first());
    lemma_escaped_concat(seq![s[0]], s.drop_first());
    assert(seq![s[0]].drop_last() == Seq::<char>::empty());
    assert(escaped(Seq::<char>::empty()) + escaped_char(s[0]) == escaped_char(s[0]));
}

/// Escaping puts a backslash before each space, comma and backslash and before
/// nothing else: reading the result back leaves none of them unescaped, and
/// taking the escaping backslashes out gives the text back.
pub proof fn escaped_text_reads_back(s: Seq<char>)
    ensures
        !has_bare_special(escaped(s)),
        unescaped(escaped(s)) == s,
    decreases s.len(),
{
    if s.len() > 0 {
        let rest = s.drop_first();
        let t = escaped(s);
        lemma_escaped_first(s);
        escaped_text_reads_back(rest);
        if is_escaped(s[0]) {
            assert(t.subrange(2, t.len() as int) == escaped(rest));
        } else {
            assert(t.subrange(1, t.len() as int) == escaped(rest));
        }
        assert(unescaped(t) == seq![s[0]] + rest);
        assert(seq![s[0]] + rest == s);
    }
}

/// The first forbidden character of a text is forbidden and occurs in it, and
/// there is none exactly when no character of the text is forbidden.
proof fn lemma_first_forbidden(s: Seq<char>)
    ensures
        first_forbidden(s) is None <==> (forall|i: int| 0 <= i < s.len() ==> !is_forbidden(s[i])),
        first_forbidden(s) matches Some(c) ==> is_forbidden(c) && s.contains(c),
    decreases s.len(),
{
    if s.len() > 0 {
        let init = s.drop_last();
        lemma_first_forbidden(init);
        if first_forbidden(init) is None {
            if first_forbidden(s) is None {
                assert forall|i: int| 0 <= i < s.len() implies !is_forbidden(s[i]) by {
                    if i < s.len() - 1 {
                        assert(s[i] == init[i]);
                    }
                }
            } else {
                assert(s[s.len() - 1] == s.last());
            }
        } else {
            let c = first_forbidden(init)->0;
            let k = choose|k: int| 0 <= k < init.len() && init[k] == c;
            assert(s[k] == c);
            assert(!is_forbidden(s[k]) == false);
        }
    }
}

/// The tag keys pass exactly when each passes, and a failure names the first
/// forbidden character of one of them.
proof fn lemma_tag_keys<'a>(tags: Seq<(&'a str, &'a str)>)
    ensures
        tag_keys_validity(tags) is Ok <==> (forall|i: int|
            0 <= i < tags.len() ==> #[trigger] first_forbidden(tags[i].0@) is None),
        tag_keys_validity(tags) matches Err(ProtocolError::ForbiddenCharacter(c)) ==> exists|i: int|
            0 <= i < tags.len() && #[trigger] first_forbidden(tags[i].0@) == Some(c),
    decreases tags.len(),
{
    if tags.len() > 0 {
        let init = tags.drop_last();
        lemma_tag_keys(init);
        assert forall|i: int| 0 <= i < init.len() implies #[trigger] init[i] == tags[i] by {}
        if tag_keys_validity(init) is Ok {
            if tag_keys_validity(tags) is Ok {
                assert forall|i: int| 0 <= i < tags.len() implies #[trigger] first_forbidden(
                    tags[i].0@,
                ) is None by {
                    if i < tags.len() - 1 {
                        assert(init[i] == tags[i]);
                    }
                }
            } else {
                assert(tags[tags.len() - 1] == tags.last());
            }
        } else {
            let c = tag_keys_validity(init)->Err_0->ForbiddenCharacter_0;
            let k = choose|k: int| 0 <= k < init.len() && #[trigger] first_forbidden(init[k].0@) == Some(c);
            assert(init[k] == tags[k]);
        }
    }
}

/// The field keys pass exactly when each passes, and a failure names the
/// first forbidden character of one of them.
proof fn lemma_field_keys<'a>(fields: Seq<(&'a str, ColumnValue<'a>)>)
    ensures
        field_keys_validity(fields) is Ok <==> (forall|i: int|
            0 <= i < fields.len() ==> #[trigger] first_forbidden(fields[i].0@) is None),
        field_keys_validity(fields) matches Err(ProtocolError::ForbiddenCharacter(c)) ==> exists|i: int|
            0 <= i < fields.len() && #[trigger] first_forbidden(fields[i].0@) == Some(c),
    decreases fields.len(),
{
    if fields.len() > 0 {
        let init = fields.drop_last();
        lemma_field_keys(init);
        assert forall|i: int| 0 <= i < init.len() implies #[trigger] init[i] == fields[i] by {}
        if field_keys_validity(init) is Ok {
            if field_keys_validity(fields) is Ok {
                assert forall|i: int| 0 <= i < fields.len() implies #[trigger] first_forbidden(
                    fields[i].0@,
                ) is None by {
                    if i < fields.len() - 1 {
                        assert(init[i] == fields[i]);
                    }
                }
            } else {
                assert(fields[fields.len() - 1] == fields.last());
            }
        } else {
            let c = field_keys_validity(init)->Err_0->ForbiddenCharacter_0;
            let k = choose|k: int| 0 <= k < init.len() && #[trigger] first_forbidden(init[k].0@) == Some(c);
            assert(init[k] == fields[k]);
        }
    }
}

/// Whether `c` occurs in an identifier of `p`: its table name, a tag key or
/// a field key.
pub open spec fn in_identifier<'a>(p: DataPoint<'a>, c: char) -> bool {
    ||| p.table@.contains(c)
    ||| exists|i: int| 0 <= i < p.symbol_set@.len() && #[trigger] p.symbol_set@[i].0@.contains(c)
    ||| exists|j: int| 0 <= j < p.column_set@.len() && #[trigger] p.column_set@[j].0@.contains(c)
}

/// Encoding fails exactly when an identifier holds a forbidden character, and
/// the character that the failure names is forbidden and occurs in an
/// identifier.
pub proof fn encoding_fails_on_forbidden_character<'a>(p: DataPoint<'a>)
    ensures
        encoding(p) is Err <==> exists|c: char| is_forbidden(c) && in_identifier(p, c),
        encoding(p) matches Err(ProtocolError::ForbiddenCharacter(c)) ==> is_forbidden(c)
            && in_identifier(p, c),
{
    lemma_first_forbidden(p.table@);
    lemma_tag_keys(p.symbol_set@);
    lemma_field_keys(p.column_set@);
    if encoding(p) is Err {
        let c = encoding(p)->Err_0->ForbiddenCharacter_0;
        if validity(p.table@) is Err {
        } else if tag_keys_validity(p.symbol_set@) is Err {
            let i = choose|i: int| 0 <= i < p.symbol_set@.len() && #[trigger] first_forbidden(p.symbol_set@[i].0@) == Some(c);
            lemma_first_forbidden(p.symbol_set@[i].0@);
        } else {
            let j = choose|j: int| 0 <= j < p.column_set@.len() && #[trigger] first_forbidden(p.column_set@[j].0@) == Some(c);
            lemma_first_forbidden(p.column_set@[j].0@);
        }
    } else {
        assert forall|c: char| is_forbidden(c) implies !in_identifier(p, c) by {
            if p.table@.contains(c) {
                let k = choose|k: int| 0 <= k < p.table@.len() && p.table@[k] == c;
            }
            if exists|i: int| 0 <= i < p.symbol_set@.len() && #[trigger] p.symbol_set@[i].0@.contains(c) {
                let i = choose|i: int| 0 <= i < p.symbol_set@.len() && #[trigger] p.symbol_set@[i].0@.contains(c);
                assert(first_forbidden(p.symbol_set@[i].0@) is None);
                lemma_first_forbidden(p.symbol_set@[i].0@);
                let k = choose|k: int| 0 <= k < p.symbol_set@[i].0@.len() && p.symbol_set@[i].0@[k] == c;
            }
            if exists|j: int| 0 <= j < p.column_set@.len() && #[trigger] p.column_set@[j].0@.contains(c) {
                let j = choose|j: int| 0 <= j < p.column_set@.len() && #[trigger] p.column_set@[j].0@.contains(c);
                assert(first_forbidden(p.column_set@[j].0@) is None);
                lemma_first_forbidden(p.column_set@[j].0@);
                let k = choose|k: int| 0 <= k < p.column_set@[j].0@.len() && p.column_set@[j].0@[k] == c;
            }
        }
    }
}

/// When the one forbidden character among the identifiers of `p` is `c`,
/// encoding fails naming `c`.
pub proof fn forbidden_character_is_named<'a>(p: DataPoint<'a>, c: char)
    requires
        is_forbidden(c),
        in_identifier(p, c),
        forall|d: char| is_forbidden(d) && in_identifier(p, d) ==> d == c,
    ensures
        encoding(p) == Err::<Seq<char>, ProtocolError>(ProtocolError::ForbiddenCharacter(c)),
{
    encoding_fails_on_forbidden_character(p);
}

/// Whether no character of `s` is a newline.
pub open spec fn newline_free(s: Seq<char>) -> bool {
    forall|i: int| 0 <= i < s.len() ==> s[i] != '\n'
}

/// Whether the text that a field value carries holds no newline.
pub open spec fn value_newline_free<'a>(v: ColumnValue<'a>) -> bool {
    match v {
        ColumnValue::Float(t) => newline_free(t@),
        ColumnValue::String(t) => newline_free(t@),
        _ => true,
    }
}

/// Whether no text of `p` (names, tag values, textual field values) holds a
/// newline.
pub open spec fn texts_newline_free<'a>(p: DataPoint<'a>) -> bool {
    &&& newline_free(p.table@)
    &&& forall|i: int|
        0 <= i < p.symbol_set@.len() ==> newline_free(#[trigger] p.symbol_set@[i].0@)
            && newline_free(p.symbol_set@[i].1@)
    &&& forall|j: int|
        0 <= j < p.column_set@.len() ==> newline_free((#[trigger] p.column_set@[j]).0@)
            && value_newline_free(p.column_set@[j].1)
}

proof fn lemma_newline_free_concat(a: Seq<char>, b: Seq<char>)
    requires
        newline_free(a),
        newline_free(b),
    ensures
        newline_free(a + b),
{
    assert forall|i: int| 0 <= i < (a + b).len() implies (a + b)[i] != '\n' by {
        if i >= a.len() {
            assert((a + b)[i] == b[i - a.len()]);
        }
    }
}

proof fn lemma_escaped_newline_free(s: Seq<char>)
    requires
        newline_free(s),
    ensures
        newline_free(escaped(s)),
    decreases s.len(),
{
    if s.len() > 0 {
        lemma_escaped_newline_free(s.drop_last());
        assert(s.last() == s[s.len() - 1]);
        lemma_newline_free_concat(escaped(s.drop_last()), escaped_char(s.last()));
    }
}

proof fn lemma_quote_escaped_newline_free(s: Seq<char>)
    requires
        newline_free(s),
    ensures
        newline_free(quote_escaped(s)),
    decreases s.len(),
{
    if s.len() > 0 {
        lemma_quote_escaped_newline_free(s.drop_last());
        assert(s.last() == s[s.len() - 1]);
        lemma_newline_free_concat(quote_escaped(s.drop_last()), quote_escaped_char(s.last()));
    }
}

proof fn lemma_decimal_newline_free(n: nat)
    ensures
        newline_free(decimal_digits(n)),
    decreases n,
{
    if n >= 10 {
        lemma_decimal_newline_free(n / 10);
        lemma_newline_free_concat(decimal_digits(n / 10), seq![digit_char(n % 10)]);
        assert(decimal_digits(n) == decimal_digits(n / 10) + seq![digit_char(n % 10)]);
    }
}

proof fn lemma_hex_newline_free(n: nat)
    ensures
        newline_free(hex_digits(n)),
    decreases n,
{
    if n >= 16 {
        lemma_hex_newline_free(n / 16);
        lemma_newline_free_concat(hex_digits(n / 16), seq![digit_char(n % 16)]);
        assert(hex_digits(n) == hex_digits(n / 16) + seq![digit_char(n % 16)]);
    }
}

proof fn lemma_rendered_newline_free<'a>(v: ColumnValue<'a>)
    requires
        value_newline_free(v),
    ensures
        newline_free(rendered(v)),
{
    match v {
        ColumnValue::Integer(i) => {
            lemma_decimal_newline_free((-i) as nat);
            lemma_decimal_newline_free(i as nat);
            lemma_newline_free_concat(seq!['-'], decimal_digits((-i) as nat));
            lemma_newline_free_concat(signed_decimal(i as int), seq!['i']);
            assert(rendered(v) == signed_decimal(i as int) + seq!['i']);
        },
        ColumnValue::Long256(n) => {
            lemma_hex_newline_free(n.value());
            lemma_newline_free_concat(seq!['0', 'x'], hex_digits(n.value()));
            lemma_newline_free_concat(seq!['0', 'x'] + hex_digits(n.value()), seq!['i']);
        },
        ColumnValue::String(t) => {
            lemma_quote_escaped_newline_free(t@);
            lemma_newline_free_concat(seq!['"'], quote_escaped(t@));
            lemma_newline_free_concat(seq!['"'] + quote_escaped(t@), seq!['"']);
        },
        ColumnValue::Timestamp(t) => {
            lemma_decimal_newline_free(t as nat);
            lemma_newline_free_concat(decimal_digits(t as nat), seq!['t']);
            assert(rendered(v) == decimal_digits(t as nat) + seq!['t']);
        },
        _ => {},
    }
}

proof fn lemma_tags_newline_free<'a>(tags: Seq<(&'a str, &'a str)>)
    requires
        forall|i: int|
            0 <= i < tags.len() ==> newline_free(#[trigger] tags[i].0@) && newline_free(tags[i].1@),
    ensures
        newline_free(tags_text(tags)),
    decreases tags.len(),
{
    if tags.len() > 0 {
        let init = tags.drop_last();
        assert forall|i: int| 0 <= i < init.len() implies newline_free(#[trigger] init[i].0@)
            && newline_free(init[i].1@) by {
            assert(init[i] == tags[i]);
        }
        lemma_tags_newline_free(init);
        let (k, v) = tags.last();
        assert(tags.last() == tags[tags.len() - 1]);
        lemma_escaped_newline_free(k@);
        lemma_escaped_newline_free(v@);
        lemma_newline_free_concat(seq![','], escaped(k@));
        lemma_newline_free_concat(seq![','] + escaped(k@), seq!['=']);
        lemma_newline_free_concat(seq![','] + escaped(k@) + seq!['='], escaped(v@));
        lemma_newline_free_concat(tags_text(init), tag_text(k@, v@));
    }
}

proof fn lemma_fields_newline_free<'a>(fields: Seq<(&'a str, ColumnValue<'a>)>)
    requires
        forall|i: int|
            0 <= i < fields.len() ==> newline_free((#[trigger] fields[i]).0@) && value_newline_free(
                fields[i].1,
            ),
    ensures
        newline_free(fields_text(fields)),
    decreases fields.len(),
{
    if fields.len() > 0 {
        let init = fields.drop_last();
        assert forall|i: int| 0 <= i < init.len() implies newline_free((#[trigger] init[i]).0@)
            && value_newline_free(init[i].1) by {
            assert(init[i] == fields[i]);
        }
        lemma_fields_newline_free(init);
        let (k, v) = fields.last();
        assert(fields.last() == fields[fields.len() - 1]);
        lemma_escaped_newline_free(k@);
        lemma_rendered_newline_free(v);
        lemma_newline_free_concat(escaped(k@), seq!['=']);
        lemma_newline_free_concat(escaped(k@) + seq!['='], rendered(v));
        let sep = seq![field_separator(fields.len() - 1)];
        lemma_newline_free_concat(fields_text(init), sep);
        lemma_newline_free_concat(fields_text(init) + sep, field_text(k@, v));
    }
}

/// A line ends in its one newline when no text of the measurement holds a
/// newline.
pub proof fn line_ends_in_its_only_newline<'a>(p: DataPoint<'a>)
    requires
        texts_newline_free(p),
    ensures
        encoding(p) matches Ok(line) ==> line.len() > 0 && line.last() == '\n' && newline_free(
            line.drop_last(),
        ),
{
    if encoding(p) is Ok {
        let line = line_text(p);
        lemma_escaped_newline_free(p.table@);
        lemma_tags_newline_free(p.symbol_set@);
        lemma_fields_newline_free(p.column_set@);
        let head = escaped(p.table@) + tags_text(p.symbol_set@);
        lemma_newline_free_concat(escaped(p.table@), tags_text(p.symbol_set@));
        lemma_newline_free_concat(head, fields_text(p.column_set@));
        match p.timestamp {
            Some(t) => {
                lemma_decimal_newline_free(t as nat);
                lemma_newline_free_concat(seq![' '], decimal_digits(t as nat));
            },
            None => {},
        }
        let body = head + fields_text(p.column_set@) + timestamp_text(p.timestamp);
        lemma_newline_free_concat(head + fields_text(p.column_set@), timestamp_text(p.timestamp));
        assert(line == body + seq!['\n']);
        assert(line.drop_last() == body);
    }
}

/// Encoding the same measurement twice gives the same outcome, and the same
/// line character for character.
pub proof fn encoding_is_repeatable<'a>(
    p: DataPoint<'a>,
    first: Result<String, ProtocolError>,
    second: Result<String, ProtocolError>,
)
    requires
        result_text(first) == encoding(p),
        result_text(second) == encoding(p),
    ensures
        result_text(first) == result_text(second),
        first matches Ok(a) ==> second matches Ok(b) && a@ == b@,
        first matches Err(e) ==> second == Err::<String, ProtocolError>(e),
{
}

/// Whether `t` begins with `a`.
pub open spec fn starts_with(t: Seq<char>, a: Seq<char>) -> bool {
    a.len() <= t.len() && t.take(a.len() as int) == a
}

proof fn lemma_starts_with_extend(t: Seq<char>, a: Seq<char>, front: Seq<char>, back: Seq<char>)
    requires
        starts_with(t, a),
    ensures
        starts_with(front + t + back, front + a),
{
    assert((front + t + back).take((front + a).len() as int) == front + a);
}

proof fn lemma_tags_text_prefix<'a>(tags: Seq<(&'a str, &'a str)>, n: int)
    requires
        0 <= n <= tags.len(),
    ensures
        starts_with(tags_text(tags), tags_text(tags.take(n))),
    decreases tags.len(),
{
    if n == tags.len() {
        assert(tags.take(n) == tags);
        assert(tags_text(tags).take(tags_text(tags).len() as int) == tags_text(tags));
    } else {
        let init = tags.drop_last();
        assert(init.take(n) == tags.take(n));
        lemma_tags_text_prefix(init, n);
        lemma_starts_with_extend(
            tags_text(init),
            tags_text(init.take(n)),
            Seq::empty(),
            tag_text(tags.last().0@, tags.last().1@),
        );
        assert(Seq::<char>::empty() + tags_text(init) + tag_text(tags.last().0@, tags.last().1@)
            == tags_text(tags));
        assert(Seq::<char>::empty() + tags_text(init.take(n)) == tags_text(init.take(n)));
    }
}

proof fn lemma_fields_text_prefix<'a>(fields: Seq<(&'a str, ColumnValue<'a>)>, n: int)
    requires
        0 <= n <= fields.len(),
    ensures
        starts_with(fields_text(fields), fields_text(fields.take(n))),
    decreases fields.len(),
{
    if n == fields.len() {
        assert(fields.take(n) == fields);
        assert(fields_text(fields).take(fields_text(fields).len() as int) == fields_text(fields));
    } else {
        let init = fields.drop_last();
        let last = seq![field_separator(fields.len() - 1)] + field_text(
            fields.last().0@,
            fields.last().1,
        );
        assert(init.take(n) == fields.take(n));
        lemma_fields_text_prefix(init, n);
        lemma_starts_with_extend(fields_text(init), fields_text(init.take(n)), Seq::empty(), last);
        assert(Seq::<char>::empty() + fields_text(init) + last == fields_text(fields));
        assert(Seq::<char>::empty() + fields_text(init.take(n)) == fields_text(init.take(n)));
    }
}

/// Tags keep the order in which they are given: the line begins with the
/// table name, the tags before `i` in order, and then tag `i`.
pub proof fn tags_keep_their_order<'a>(p: DataPoint<'a>, i: int)
    requires
        encoding(p) is Ok,
        0 <= i < p.symbol_set@.len(),
    ensures
        encoding(p) matches Ok(line) && starts_with(
            line,
            escaped(p.table@) + tags_text(p.symbol_set@.take(i)) + tag_text(
                p.symbol_set@[i].0@,
                p.symbol_set@[i].1@,
            ),
        ),
{
    let tags = p.symbol_set@;
    let upto = tags.take(i + 1);
    assert(upto.drop_last() == tags.take(i));
    assert(upto.last() == tags[i]);
    lemma_tags_text_prefix(tags, i + 1);
    let back = fields_text(p.column_set@) + timestamp_text(p.timestamp) + seq!['\n'];
    lemma_starts_with_extend(tags_text(tags), tags_text(upto), escaped(p.table@), back);
    assert(escaped(p.table@) + tags_text(tags) + back == line_text(p));
    assert(tags_text(upto) == tags_text(tags.take(i)) + tag_text(tags[i].0@, tags[i].1@));
    assert(escaped(p.table@) + tags_text(upto) == escaped(p.table@) + tags_text(tags.take(i))
        + tag_text(tags[i].0@, tags[i].1@));
}

/// Fields keep the order in which they are given: the line begins with the
/// table name, all tags, the fields before `j` in order, and then field `j`
/// after its separator.
pub proof fn fields_keep_their_order<'a>(p: DataPoint<'a>, j: int)
    requires
        encoding(p) is Ok,
        0 <= j < p.column_set@.len(),
    ensures
        encoding(p) matches Ok(line) && starts_with(
            line,
            escaped(p.table@) + tags_text(p.symbol_set@) + fields_text(p.column_set@.take(j))
                + seq![field_separator(j)] + field_text(p.column_set@[j].0@, p.column_set@[j].1),
        ),
{
    let fields = p.column_set@;
    let upto = fields.take(j + 1);
    assert(upto.drop_last() == fields.take(j));
    assert(upto.last() == fields[j]);
    lemma_fields_text_prefix(fields, j + 1);
    let front = escaped(p.table@) + tags_text(p.symbol_set@);
    let back = timestamp_text(p.timestamp) + seq!['\n'];
    lemma_starts_with_extend(fields_text(fields), fields_text(upto), front, back);
    assert(front + fields_text(fields) + back == line_text(p));
    assert(front + fields_text(upto) == escaped(p.table@) + tags_text(p.symbol_set@)
        + fields_text(fields.take(j)) + seq![field_separator(j)] + field_text(
        fields[j].0@,
        fields[j].1,
    ));
}

} // verus!
