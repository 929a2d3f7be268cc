//! Reading a column type from its name.

use vstd::prelude::*;
use vstd::string::*;
use vstd::utf8::{encode_utf8, encode_utf8_decode_utf8, is_ascii_chars, is_ascii_chars_encode_utf8};
use crate::types::{decimal_digits, digit, SqlType};

verus! {

/// Whether a character is a decimal digit.
pub open spec fn is_digit(c: char) -> bool {
    '0' <= c <= '9'
}

/// The number that a digit stands for.
pub open spec fn digit_value(c: char) -> nat {
    (c as nat - '0' as nat) as nat
}

/// The number that a run of digits spells.
pub open spec fn digits_value(s: Seq<char>) -> nat
    decreases s.len(),
{
    if s.len() == 0 {
        0
    } else {
        digits_value(s.drop_last()) * 10 + digit_value(s.last())
    }
}

/// A number as the wire spells it: digits only, at least one, and no zero in
/// front of another digit.
pub open spec fn canonical(s: Seq<char>) -> bool {
    &&& s.len() >= 1
    &&& forall|i: int| 0 <= i < s.len() ==> is_digit(#[trigger] s[i])
    &&& s.len() > 1 ==> s[0] != '0'
}

/// The number that `s` spells, where it spells one that fits 64 bits.
pub open spec fn parse_digits(s: Seq<char>) -> Option<nat> {
    if canonical(s) && digits_value(s) <= u64::MAX {
        Some(digits_value(s))
    } else {
        None
    }
}

/// How many digits stand at the front of `s`.
pub open spec fn digits_len(s: Seq<char>) -> nat
    decreases s.len(),
{
    if s.len() > 0 && is_digit(s[0]) {
        1 + digits_len(s.skip(1))
    } else {
        0
    }
}

/// Whether `s` is `prefix`, something, and a closing bracket.
pub open spec fn has_shape(s: Seq<char>, prefix: Seq<char>) -> bool {
    s.len() > prefix.len() && s.subrange(0, prefix.len() as int) == prefix && s.last() == ')'
}

/// What stands between a prefix of `k` characters and the closing bracket.
pub open spec fn inner(s: Seq<char>, k: int) -> Seq<char> {
    s.subrange(k, s.len() - 1)
}

/// The decimal type that `body`, the text between the brackets, spells.
pub open spec fn parse_decimal(body: Seq<char>) -> Option<SqlType> {
    let k = digits_len(body) as int;
    if k < body.len() && body[k] == ',' {
        match (parse_digits(body.subrange(0, k)), parse_digits(body.subrange(k + 1, body.len() as int))) {
            (Some(p), Some(s)) => if 1 <= p <= 38 && s <= u8::MAX {
                Some(SqlType::Decimal(p as u8, s as u8))
            } else {
                None
            },
            _ => None,
        }
    } else {
        None
    }
}

/// The type that a name spells, read from the left.
pub open spec fn parse_name(s: Seq<char>) -> Option<SqlType>
    decreases s.len(),
{
    if s == "UInt8"@ {
        Some(SqlType::UInt8)
    } else if s == "UInt16"@ {
        Some(SqlType::UInt16)
    } else if s == "UInt32"@ {
        Some(SqlType::UInt32)
    } else if s == "UInt64"@ {
        Some(SqlType::UInt64)
    } else if s == "Int8"@ {
        Some(SqlType::Int8)
    } else if s == "Int16"@ {
        Some(SqlType::Int16)
    } else if s == "Int32"@ {
        Some(SqlType::Int32)
    } else if s == "Int64"@ {
        Some(SqlType::Int64)
    } else if s == "Float32"@ {
        Some(SqlType::Float32)
    } else if s == "Float64"@ {
        Some(SqlType::Float64)
    } else if s == "String"@ {
        Some(SqlType::String)
    } else if s == "Date"@ {
        Some(SqlType::Date)
    } else if s == "DateTime"@ {
        Some(SqlType::DateTime)
    } else if has_shape(s, "FixedString("@) {
        match parse_digits(inner(s, "FixedString("@.len() as int)) {
            Some(n) => if n <= usize::MAX {
                Some(SqlType::FixedString(n as usize))
            } else {
                None
            },
            None => None,
        }
    } else if has_shape(s, "Decimal("@) {
        parse_decimal(inner(s, "Decimal("@.len() as int))
    } else if has_shape(s, "Nullable("@) {
        match parse_name(inner(s, "Nullable("@.len() as int)) {
            Some(t) => Some(SqlType::Nullable(Box::new(t))),
            None => None,
        }
    } else if has_shape(s, "Array("@) {
        match parse_name(inner(s, "Array("@.len() as int)) {
            Some(t) => Some(SqlType::Array(Box::new(t))),
            None => None,
        }
    } else {
        None
    }
}

/// Length, first character, last character but one, and last character.
pub open spec fn outline(s: Seq<char>) -> (nat, char, char, char) {
    (s.len(), s[0], s[s.len() - 2], s[s.len() - 1])
}

/// What tells the names of the types apart.
pub proof fn lemma_outlines()
    ensures
        outline("UInt8"@) == (5nat, 'U', 't', '8'),
        outline("UInt16"@) == (6nat, 'U', '1', '6'),
        outline("UInt32"@) == (6nat, 'U', '3', '2'),
        outline("UInt64"@) == (6nat, 'U', '6', '4'),
        outline("Int8"@) == (4nat, 'I', 't', '8'),
        outline("Int16"@) == (5nat, 'I', '1', '6'),
        outline("Int32"@) == (5nat, 'I', '3', '2'),
        outline("Int64"@) == (5nat, 'I', '6', '4'),
        outline("Float32"@) == (7nat, 'F', '3', '2'),
        outline("Float64"@) == (7nat, 'F', '6', '4'),
        outline("String"@) == (6nat, 'S', 'n', 'g'),
        outline("Date"@) == (4nat, 'D', 't', 'e'),
        outline("DateTime"@) == (8nat, 'D', 'm', 'e'),
        "FixedString("@.len() == 12 && "FixedString("@[0] == 'F',
        "Decimal("@.len() == 8 && "Decimal("@[0] == 'D',
        "Nullable("@.len() == 9 && "Nullable("@[0] == 'N',
        "Array("@.len() == 6 && "Array("@[0] == 'A',
        ")"@ == seq![')'],
        ","@ == seq![','],
        is_ascii_chars("UInt8"@),
        is_ascii_chars("UInt16"@),
        is_ascii_chars("UInt32"@),
        is_ascii_chars("UInt64"@),
        is_ascii_chars("Int8"@),
        is_ascii_chars("Int16"@),
        is_ascii_chars("Int32"@),
        is_ascii_chars("Int64"@),
        is_ascii_chars("Float32"@),
        is_ascii_chars("Float64"@),
        is_ascii_chars("String"@),
        is_ascii_chars("Date"@),
        is_ascii_chars("DateTime"@),
        is_ascii_chars("FixedString("@),
        is_ascii_chars("Decimal("@),
        is_ascii_chars("Nullable("@),
        is_ascii_chars("Array("@),
{
    reveal_strlit("UInt8");
    reveal_strlit("UInt16");
    reveal_strlit("UInt32");
    reveal_strlit("UInt64");
    reveal_strlit("Int8");
    reveal_strlit("Int16");
    reveal_strlit("Int32");
    reveal_strlit("Int64");
    reveal_strlit("Float32");
    reveal_strlit("Float64");
    reveal_strlit("String");
    reveal_strlit("Date");
    reveal_strlit("DateTime");
    reveal_strlit("FixedString(");
    reveal_strlit("Decimal(");
    reveal_strlit("Nullable(");
    reveal_strlit("Array(");
    reveal_strlit(")");
    reveal_strlit(",");
    assert(")"@ =~= seq![')']);
    assert(","@ =~= seq![',']);
}

/// The ten digits and the numbers below ten stand for each other.
pub proof fn lemma_digit(d: nat)
    requires
        d < 10,
    ensures
        is_digit(digit(d)),
        digit_value(digit(d)) == d,
{
}

/// A digit is the character of the number it stands for.
pub proof fn lemma_digit_of(c: char)
    requires
        is_digit(c),
    ensures
        digit_value(c) < 10,
        digit(digit_value(c)) == c,
{
}

/// The digits of a number are canonical and spell it.
pub proof fn lemma_decimal_digits(n: nat)
    ensures
        canonical(decimal_digits(n)),
        digits_value(decimal_digits(n)) == n,
        n >= 1 ==> decimal_digits(n)[0] != '0',
    decreases n,
{
    let s = decimal_digits(n);
    if n < 10 {
        lemma_digit(n);
        assert(s.drop_last() =~= Seq::<char>::empty());
        assert(digits_value(s.drop_last()) == 0);
    } else {
        lemma_decimal_digits(n / 10);
        lemma_digit(n % 10);
        let front = decimal_digits(n / 10);
        assert(s.drop_last() =~= front);
        assert(s.last() == digit(n % 10));
        assert(s[0] == front[0]);
        assert forall|i: int| 0 <= i < s.len() implies is_digit(#[trigger] s[i]) by {
            if i < front.len() {
                assert(s[i] == front[i]);
            }
        }
    }
}

/// Canonical digits are the digits of the number they spell.
pub proof fn lemma_digits_decimal(s: Seq<char>)
    requires
        canonical(s),
    ensures
        decimal_digits(digits_value(s)) == s,
    decreases s.len(),
{
    let n = digits_value(s);
    lemma_digit_of(s.last());
    if s.len() == 1 {
        assert(s.drop_last() =~= Seq::<char>::empty());
        assert(digits_value(s.drop_last()) == 0);
        assert(decimal_digits(n) =~= s);
    } else {
        let front = s.drop_last();
        assert(front[0] == s[0]);
        lemma_digits_decimal(front);
        lemma_value_positive(front);
        let m = digits_value(front);
        let d = digit_value(s.last());
        assert(n == m * 10 + d);
        assert(n / 10 == m && n % 10 == d) by (nonlinear_arith)
            requires
                n == m * 10 + d,
                d < 10,
        ;
        assert(decimal_digits(n) =~= s);
    }
}

/// Digits that do not start with a zero spell a positive number.
proof fn lemma_value_positive(s: Seq<char>)
    requires
        s.len() >= 1,
        forall|i: int| 0 <= i < s.len() ==> is_digit(#[trigger] s[i]),
        s[0] != '0',
    ensures
        digits_value(s) >= 1,
    decreases s.len(),
{
    if s.len() == 1 {
        assert(s.drop_last() =~= Seq::<char>::empty());
        assert(digits_value(s.drop_last()) == 0);
        assert(is_digit(s[0]));
    } else {
        let front = s.drop_last();
        assert(front[0] == s[0]);
        lemma_value_positive(front);
    }
}

/// A longer run of digits spells no smaller a number than its front.
pub proof fn lemma_value_grows(s: Seq<char>, k: int)
    requires
        0 <= k <= s.len(),
    ensures
        digits_value(s.subrange(0, k)) <= digits_value(s),
    decreases s.len() - k,
{
    if k < s.len() {
        lemma_value_grows(s, k + 1);
        let longer = s.subrange(0, k + 1);
        assert(longer.drop_last() =~= s.subrange(0, k));
    } else {
        assert(s.subrange(0, k) =~= s);
    }
}

/// The digits at the front of `a + rest` are `a` where `a` is all digits and
/// `rest` starts with none.
pub proof fn lemma_digits_len(a: Seq<char>, rest: Seq<char>)
    requires
        forall|i: int| 0 <= i < a.len() ==> is_digit(#[trigger] a[i]),
        rest.len() == 0 || !is_digit(rest[0]),
    ensures
        digits_len(a + rest) == a.len(),
    decreases a.len(),
{
    let s = a + rest;
    if a.len() == 0 {
        assert(s =~= rest);
    } else {
        assert(s[0] == a[0]);
        assert(s.skip(1) =~= a.skip(1) + rest);
        assert forall|i: int| 0 <= i < a.skip(1).len() implies is_digit(#[trigger] a.skip(1)[i]) by {
            assert(a.skip(1)[i] == a[i + 1]);
        }
        lemma_digits_len(a.skip(1), rest);
    }
}

/// The digits at the front are digits, and what follows them is none.
pub proof fn lemma_digits_len_bound(s: Seq<char>)
    ensures
        digits_len(s) <= s.len(),
        forall|i: int| 0 <= i < digits_len(s) ==> is_digit(#[trigger] s[i]),
        digits_len(s) < s.len() ==> !is_digit(s[digits_len(s) as int]),
    decreases s.len(),
{
    if s.len() > 0 && is_digit(s[0]) {
        lemma_digits_len_bound(s.skip(1));
        assert forall|i: int| 0 <= i < digits_len(s) implies is_digit(#[trigger] s[i]) by {
            if i > 0 {
                assert(s[i] == s.skip(1)[i - 1]);
            }
        }
        if digits_len(s) < s.len() {
            assert(s[digits_len(s) as int] == s.skip(1)[digits_len(s) - 1]);
        }
    }
}

/// The name of a type holds ASCII characters only.
pub proof fn lemma_name_ascii(t: SqlType)
    ensures
        is_ascii_chars(t.name()),
    decreases t,
{
    lemma_outlines();
    match t {
        SqlType::FixedString(n) => {
            lemma_decimal_digits(n as nat);
        },
        SqlType::Decimal(p, s) => {
            lemma_decimal_digits(p as nat);
            lemma_decimal_digits(s as nat);
        },
        SqlType::Nullable(inner) => {
            lemma_name_ascii(*inner);
        },
        SqlType::Array(inner) => {
            lemma_name_ascii(*inner);
        },
        _ => {},
    }
}

/// Reading the name of a supported type gives the type.
pub proof fn lemma_parse_name_of(t: SqlType)
    requires
        t.supported(),
    ensures
        parse_name(t.name()) == Some(t),
    decreases t,
{
    lemma_outlines();
    let s = t.name();
    match t {
        SqlType::FixedString(n) => {
            let digits = decimal_digits(n as nat);
            lemma_decimal_digits(n as nat);
            assert(s.subrange(0, 12) =~= "FixedString("@);
            assert(inner(s, 12) =~= digits);
            assert(outline(s).3 == ')');
        },
        SqlType::Decimal(p, q) => {
            let first = decimal_digits(p as nat);
            let second = decimal_digits(q as nat);
            lemma_decimal_digits(p as nat);
            lemma_decimal_digits(q as nat);
            let body = inner(s, 8);
            assert(s.subrange(0, 8) =~= "Decimal("@);
            assert(body =~= first + (","@ + second));
            lemma_digits_len(first, ","@ + second);
            let k = first.len() as int;
            assert(body[k] == ',');
            assert(body.subrange(0, k) =~= first);
            assert(body.subrange(k + 1, body.len() as int) =~= second);
            assert(outline(s).3 == ')');
            assert(s[0] == 'D');
        },
        SqlType::Nullable(of) => {
            lemma_parse_name_of(*of);
            assert(s.subrange(0, 9) =~= "Nullable("@);
            assert(inner(s, 9) =~= of.name());
            assert(outline(s).3 == ')');
            assert(s[0] == 'N');
        },
        SqlType::Array(of) => {
            lemma_parse_name_of(*of);
            assert(s.subrange(0, 6) =~= "Array("@);
            assert(inner(s, 6) =~= of.name());
            assert(outline(s).3 == ')');
            assert(s[0] == 'A');
        },
        _ => {},
    }
}

/// A name that reads as a type is the name of that type, and the type is supported.
pub proof fn lemma_name_of_parse(s: Seq<char>)
    ensures
        parse_name(s) matches Some(t) ==> t.supported() && t.name() == s,
    decreases s.len(),
{
    lemma_outlines();
    if parse_name(s) is Some {
        let t = parse_name(s)->Some_0;
        match t {
            SqlType::FixedString(n) => {
                let digits = inner(s, 12);
                lemma_digits_decimal(digits);
                assert(s =~= "FixedString("@ + digits + ")"@);
            },
            SqlType::Decimal(p, q) => {
                let body = inner(s, 8);
                let k = digits_len(body) as int;
                lemma_digits_len_bound(body);
                lemma_digits_decimal(body.subrange(0, k));
                lemma_digits_decimal(body.subrange(k + 1, body.len() as int));
                assert(body =~= body.subrange(0, k) + ","@ + body.subrange(
                    k + 1,
                    body.len() as int,
                ));
                assert(s =~= "Decimal("@ + body.subrange(0, k) + ","@ + body.subrange(
                    k + 1,
                    body.len() as int,
                ) + ")"@);
            },
            SqlType::Nullable(of) => {
                let body = inner(s, 9);
                lemma_name_of_parse(body);
                assert(s =~= "Nullable("@ + body + ")"@);
            },
            SqlType::Array(of) => {
                let body = inner(s, 6);
                lemma_name_of_parse(body);
                assert(s =~= "Array("@ + body + ")"@);
            },
            _ => {},
        }
    }
}

/// Compares two texts.
pub fn same_text(a: &str, b: &str) -> (r: bool)
    ensures
        r == (a@ == b@),
{
    let x = a.as_bytes();
    let y = b.as_bytes();
    proof {
        encode_utf8_decode_utf8(a@);
        encode_utf8_decode_utf8(b@);
        assert(x@ == encode_utf8(a@));
        assert(y@ == encode_utf8(b@));
    }
    if x.len() != y.len() {
        return false;
    }
    let mut i: usize = 0;
    while i < x.len()
        invariant
            i <= x.len(),
            x.len() == y.len(),
            x@ == encode_utf8(a@),
            y@ == encode_utf8(b@),
            forall|j: int| 0 <= j < i ==> x@[j] == y@[j],
        decreases x.len() - i,
    {
        if x[i] != y[i] {
            assert(x@[i as int] != y@[i as int]);
            return false;
        }
        i += 1;
    }
    assert(x@ =~= y@);
    true
}

/// Whether the text is `prefix`, something, and a closing bracket.
fn shaped(text: &str, prefix: &str) -> (r: bool)
    requires
        is_ascii(text),
        is_ascii(prefix),
    ensures
        r == has_shape(text@, prefix@),
{
    proof {
        is_ascii_chars_encode_utf8(text@);
        is_ascii_chars_encode_utf8(prefix@);
    }
    let n = text.as_bytes().len();
    let k = prefix.as_bytes().len();
    assert(n == text@.len()) by {
        assert(text.spec_bytes() == encode_utf8(text@));
    }
    assert(k == prefix@.len()) by {
        assert(prefix.spec_bytes() == encode_utf8(prefix@));
    }
    if n <= k {
        return false;
    }
    if text.get_ascii(n - 1) != 41 {
        assert(text@.last() as u8 != 41);
        return false;
    }
    assert(text@.last() as u8 == 41);
    assert(')' as u8 == 41);
    same_text(text.substring_ascii(0, k), prefix)
}

/// The number that the text spells, where it spells one that fits 64 bits.
fn parse_number(text: &str) -> (r: Option<u64>)
    requires
        is_ascii(text),
    ensures
        match (r, parse_digits(text@)) {
            (Some(n), Some(m)) => n == m,
            (None, None) => true,
            _ => false,
        },
{
    proof {
        is_ascii_chars_encode_utf8(text@);
    }
    let bytes = text.as_bytes();
    let n = bytes.len();
    assert(bytes@ == encode_utf8(text@));
    if n == 0 {
        return None;
    }
    if n > 1 && bytes[0] == 48 {
        assert(text@[0] as u8 == 48);
        return None;
    }
    if n > 1 {
        assert(text@[0] as u8 != 48);
    }
    let mut acc: u64 = 0;
    let mut i: usize = 0;
    assert(text@.subrange(0, 0) =~= Seq::<char>::empty());
    while i < n
        invariant
            i <= n == text@.len() == bytes@.len(),
            is_ascii_chars(text@),
            forall|j: int| 0 <= j < n ==> text@[j] as u8 == #[trigger] bytes@[j],
            forall|j: int| 0 <= j < i ==> is_digit(#[trigger] text@[j]),
            acc == digits_value(text@.subrange(0, i as int)),
        decreases n - i,
    {
        let b = bytes[i];
        let ghost c = text@[i as int];
        assert(c as u8 == b);
        assert((c as nat) < 128);
        if b < 48 || b > 57 {
            assert(!is_digit(c));
            return None;
        }
        assert(is_digit(c));
        let d = (b - 48) as u64;
        let ghost longer = text@.subrange(0, i + 1);
        assert(longer.drop_last() =~= text@.subrange(0, i as int));
        assert(longer.last() == c);
        assert(digit_value(c) == d);
        if acc > (u64::MAX - d) / 10 {
            proof {
                lemma_value_grows(text@, i + 1);
            }
            return None;
        }
        acc = acc * 10 + d;
        i += 1;
    }
    assert(text@.subrange(0, n as int) =~= text@);
    Some(acc)
}

/// The decimal type that the text between the brackets spells.
fn parse_decimal_body(body: &str) -> (r: Option<SqlType>)
    requires
        is_ascii(body),
    ensures
        r == parse_decimal(body@),
{
    proof {
        is_ascii_chars_encode_utf8(body@);
        lemma_digits_len_bound(body@);
    }
    let bytes = body.as_bytes();
    let n = bytes.len();
    assert(bytes@ == encode_utf8(body@));
    assert(body@.skip(0) =~= body@);
    let mut k: usize = 0;
    while k < n && 48 <= bytes[k] && bytes[k] <= 57
        invariant
            k <= n == body@.len() == bytes@.len(),
            is_ascii_chars(body@),
            forall|j: int| 0 <= j < n ==> body@[j] as u8 == #[trigger] bytes@[j],
            digits_len(body@) == k + digits_len(body@.skip(k as int)),
        decreases n - k,
    {
        proof {
            let rest = body@.skip(k as int);
            assert(rest[0] == body@[k as int]);
            assert((body@[k as int] as nat) < 128);
            assert(is_digit(rest[0]));
            assert(rest.skip(1) =~= body@.skip(k + 1));
        }
        k += 1;
    }
    proof {
        let rest = body@.skip(k as int);
        if k < n {
            assert(rest[0] == body@[k as int]);
            assert((body@[k as int] as nat) < 128);
            assert(!is_digit(rest[0]));
        }
        assert(digits_len(rest) == 0);
    }
    if k >= n || bytes[k] != 44 {
        if k < n {
            assert(body@[k as int] as u8 != 44);
        }
        return None;
    }
    assert(body@[k as int] as u8 == 44);
    assert((body@[k as int] as nat) < 128);
    assert(',' as u8 == 44);
    assert(body@[k as int] == ',');
    let first = parse_number(body.substring_ascii(0, k));
    let second = parse_number(body.substring_ascii(k + 1, n));
    match (first, second) {
        (Some(p), Some(s)) => {
            if 1 <= p && p <= 38 && s <= 255 {
                Some(SqlType::Decimal(p as u8, s as u8))
            } else {
                None
            }
        },
        _ => None,
    }
}

/// The type that an ASCII name spells.
fn parse(text: &str) -> (r: Option<SqlType>)
    requires
        is_ascii(text),
    ensures
        r == parse_name(text@),
    decreases text@.len(),
{
    proof {
        lemma_outlines();
        is_ascii_chars_encode_utf8(text@);
    }
    let n = text.as_bytes().len();
    assert(n == text@.len()) by {
        assert(text.spec_bytes() == encode_utf8(text@));
    }
    if same_text(text, "UInt8") {
        Some(SqlType::UInt8)
    } else if same_text(text, "UInt16") {
        Some(SqlType::UInt16)
    } else if same_text(text, "UInt32") {
        Some(SqlType::UInt32)
    } else if same_text(text, "UInt64") {
        Some(SqlType::UInt64)
    } else if same_text(text, "Int8") {
        Some(SqlType::Int8)
    } else if same_text(text, "Int16") {
        Some(SqlType::Int16)
    } else if same_text(text, "Int32") {
        Some(SqlType::Int32)
    } else if same_text(text, "Int64") {
        Some(SqlType::Int64)
    } else if same_text(text, "Float32") {
        Some(SqlType::Float32)
    } else if same_text(text, "Float64") {
        Some(SqlType::Float64)
    } else if same_text(text, "String") {
        Some(SqlType::String)
    } else if same_text(text, "Date") {
        Some(SqlType::Date)
    } else if same_text(text, "DateTime") {
        Some(SqlType::DateTime)
    } else if shaped(text, "FixedString(") {
        match parse_number(text.substring_ascii(12, n - 1)) {
            Some(width) => {
                if width <= usize::MAX as u64 {
                    Some(SqlType::FixedString(width as usize))
                } else {
                    None
                }
            },
            None => None,
        }
    } else if shaped(text, "Decimal(") {
        parse_decimal_body(text.substring_ascii(8, n - 1))
    } else if shaped(text, "Nullable(") {
        match parse(text.substring_ascii(9, n - 1)) {
            Some(t) => Some(SqlType::Nullable(Box::new(t))),
            None => None,
        }
    } else if shaped(text, "Array(") {
        match parse(text.substring_ascii(6, n - 1)) {
            Some(t) => Some(SqlType::Array(Box::new(t))),
            None => None,
        }
    } else {
        None
    }
}

impl SqlType {
    /// The supported type that `name` is the name of, if there is one.
    pub fn from_name(name: &str) -> (r: Option<SqlType>)
        ensures
            match r {
                Some(t) => t.supported() && t.name() == name@,
                None => forall|t: SqlType| t.supported() ==> t.name() != name@,
            },
    {
        if !name.is_ascii() {
            assert forall|t: SqlType| t.supported() implies t.name() != name@ by {
                lemma_name_ascii(t);
            }
            return None;
        }
        let r = parse(name);
        proof {
            lemma_name_of_parse(name@);
            assert forall|t: SqlType| t.supported() && t.name() == name@ implies r == Some(t) by {
                lemma_parse_name_of(t);
            }
        }
        r
    }
}

} // verus!
