//! Loading a specification from YAML text and writing one out: a map from
//! position to the entries `Label`, `ContentType`, `LengthType` (or
//! `LenType`) and `Length` (or `MaxLen`) of the field at that position. The
//! YAML itself is read and written by `serde_yaml`; what this module states
//! of that is taken on trust from that crate.

use vstd::prelude::*;
use vstd::string::StringExecFns;
use crate::iso_field::same_text;
use crate::iso_field::lowercase_of;
use crate::iso_field::FieldCharType;
use crate::iso_field::FieldDecl;
use crate::iso_field::FieldSizeType;
use crate::iso_field::IsoField;
use crate::iso_msg::IsoSpecs;
use std::collections::BTreeMap;

verus! {

/// The table that `serde_yaml::from_str` reads from a YAML text as a map
/// from position to a map from entry name to entry value, each map in the
/// order of its keys; or the text of the error that it gives.
pub uninterp spec fn yaml_table(text: Seq<char>) -> Result<
    Seq<(usize, Seq<(Seq<char>, Seq<char>)>)>,
    Seq<char>,
>;

/// The YAML text that `serde_yaml::to_string` writes for a table taken as a
/// map from position to a map from entry name to entry value; or the text of
/// the error that it gives.
pub uninterp spec fn yaml_text(table: Seq<(usize, Seq<(Seq<char>, Seq<char>)>)>) -> Result<
    Seq<char>,
    Seq<char>,
>;

/// `serde_yaml::from_str`, reading a map from position to a map from entry
/// name to entry value: the result is the table, or the error text, that
/// the YAML text stands for, and depends on that text alone.
#[verifier::external_body]
fn parse_table(yaml: &str) -> (r: Result<Vec<(usize, Vec<(String, String)>)>, String>)
    ensures
        (match r {
            Ok(table) => Ok::<Seq<(usize, Seq<(Seq<char>, Seq<char>)>)>, Seq<char>>(
                table.deep_view(),
            ),
            Err(e) => Err::<Seq<(usize, Seq<(Seq<char>, Seq<char>)>)>, Seq<char>>(e@),
        }) == yaml_table(yaml@),
{
    match serde_yaml::from_str::<BTreeMap<usize, BTreeMap<String, String>>>(yaml) {
        Ok(map) => Ok(map.into_iter().map(|(k, v)| (k, v.into_iter().collect())).collect()),
        Err(e) => Err(e.to_string()),
    }
}

/// `serde_yaml::to_string`, writing a map from position to a map from entry
/// name to entry value: the result is the YAML text, or the error text, that
/// the table gives, and depends on the table alone.
#[verifier::external_body]
fn render_table(table: &Vec<(usize, Vec<(String, String)>)>) -> (r: Result<String, String>)
    ensures
        (match r {
            Ok(text) => Ok::<Seq<char>, Seq<char>>(text@),
            Err(e) => Err::<Seq<char>, Seq<char>>(e@),
        }) == yaml_text(table.deep_view()),
{
    let map: BTreeMap<usize, BTreeMap<String, String>> = table.iter().map(
        |(k, v)| (*k, v.iter().cloned().collect()),
    ).collect();
    match serde_yaml::to_string(&map) {
        Ok(text) => Ok(text),
        Err(e) => Err(e.to_string()),
    }
}

/// The decimal digit of a value below ten.
pub open spec fn digit_of(d: nat) -> char {
    if d == 0 {
        '0'
    } else if d == 1 {
        '1'
    } else if d == 2 {
        '2'
    } else if d == 3 {
        '3'
    } else if d == 4 {
        '4'
    } else if d == 5 {
        '5'
    } else if d == 6 {
        '6'
    } else if d == 7 {
        '7'
    } else if d == 8 {
        '8'
    } else {
        '9'
    }
}

/// The decimal numeral of a number, without leading zeros.
pub open spec fn decimal_chars(n: nat) -> Seq<char>
    decreases n,
{
    if n < 10 {
        seq![digit_of(n)]
    } else {
        decimal_chars(n / 10).push(digit_of(n % 10))
    }
}

/// The number that a text denotes as `str::parse` reads it: an optional
/// `+`, then one decimal digit or more, and nothing else. There is none
/// where the text is not of that form or the number is too large.
pub open spec fn parsed_usize(bytes: Seq<u8>) -> Option<usize> {
    let digits = if bytes.len() > 0 && bytes[0] == 0x2b {
        bytes.skip(1)
    } else {
        bytes
    };
    if digits.len() > 0 && all_digits(digits) && digits_value(digits) <= usize::MAX {
        Some(digits_value(digits) as usize)
    } else {
        None
    }
}

/// Whether every byte of a text is a decimal digit.
pub open spec fn all_digits(s: Seq<u8>) -> bool {
    forall|i: int| 0 <= i < s.len() ==> crate::numeral::is_digit(#[trigger] s[i])
}

/// The number that a text of decimal digits denotes.
pub open spec fn digits_value(s: Seq<u8>) -> nat
    decreases s.len(),
{
    if s.len() == 0 {
        0
    } else {
        10 * digits_value(s.drop_last()) + crate::numeral::digit_value(s.last())
    }
}

/// A field specification with nothing said of it: no label, the content
/// class `ans`, a fixed length of zero.
pub open spec fn default_decl() -> FieldDecl {
    FieldDecl {
        label: Seq::empty(),
        char_type: FieldCharType::Iso8583_ans,
        size_type: FieldSizeType::Fixed,
        length: 0,
    }
}

/// The error for YAML text that cannot be read.
pub open spec fn parse_message(error: Seq<char>) -> Seq<char> {
    "Failed to parse yaml file. Err: "@ + error + " "@
}

/// The error for an entry value that cannot be read.
pub open spec fn entry_message(what: Seq<char>, value: Seq<char>, index: usize) -> Seq<char> {
    "Invalid "@ + what + " "@ + value + " for Index "@ + decimal_chars(index as nat)
}

/// The error for a position that does not follow the one before.
pub open spec fn order_message(index: usize) -> Seq<char> {
    "Index "@ + decimal_chars(index as nat) + " is out of order"@
}

/// What one entry adds to a field specification. `Label` sets the label,
/// `ContentType` the content class, `LengthType` or `LenType` the length
/// class, whatever its case, and `Length` or `MaxLen` the maximum length.
/// Other entries add nothing.
pub open spec fn apply_pair(d: FieldDecl, key: Seq<char>, value: Seq<char>, index: usize) -> Result<
    FieldDecl,
    Seq<char>,
> {
    if key == "Label"@ {
        Ok(FieldDecl { label: value, ..d })
    } else if key == "ContentType"@ {
        match FieldCharType::of_token(value) {
            Some(c) => Ok(FieldDecl { char_type: c, ..d }),
            None => Err(entry_message("ContentType"@, value, index)),
        }
    } else if key == "LengthType"@ || key == "LenType"@ {
        match FieldSizeType::of_token(lowercase_of(value)) {
            Some(c) => Ok(FieldDecl { size_type: c, ..d }),
            None => Err(entry_message("LengthType"@, value, index)),
        }
    } else if key == "Length"@ || key == "MaxLen"@ {
        match parsed_usize(vstd::utf8::encode_utf8(value)) {
            Some(n) => Ok(FieldDecl { length: n, ..d }),
            None => Err(entry_message("Length/MaxLen"@, value, index)),
        }
    } else {
        Ok(d)
    }
}

/// The field specification that the first `n` entries of a position give,
/// taken in order, or the error of the first entry that cannot be read.
pub open spec fn apply_pairs(pairs: Seq<(Seq<char>, Seq<char>)>, index: usize, n: nat) -> Result<
    FieldDecl,
    Seq<char>,
>
    decreases n,
{
    if n == 0 {
        Ok(default_decl())
    } else {
        match apply_pairs(pairs, index, (n - 1) as nat) {
            Ok(d) => apply_pair(d, pairs[n - 1].0, pairs[n - 1].1, index),
            Err(e) => Err(e),
        }
    }
}

/// The field specifications that the first `n` rows of a table give. Row
/// `i` has to be for position `i`.
pub open spec fn decls_upto(table: Seq<(usize, Seq<(Seq<char>, Seq<char>)>)>, n: nat) -> Result<
    Seq<FieldDecl>,
    Seq<char>,
>
    decreases n,
{
    if n == 0 {
        Ok(Seq::empty())
    } else {
        match decls_upto(table, (n - 1) as nat) {
            Ok(decls) => if table[n - 1].0 != n - 1 {
                Err(order_message(table[n - 1].0))
            } else {
                match apply_pairs(table[n - 1].1, table[n - 1].0, table[n - 1].1.len()) {
                    Ok(d) => Ok(decls.push(d)),
                    Err(e) => Err(e),
                }
            },
            Err(e) => Err(e),
        }
    }
}

/// The field specifications that a table gives.
pub open spec fn table_decls(table: Seq<(usize, Seq<(Seq<char>, Seq<char>)>)>) -> Result<
    Seq<FieldDecl>,
    Seq<char>,
> {
    decls_upto(table, table.len())
}

/// The field specifications that a YAML text gives.
pub open spec fn loaded(text: Seq<char>) -> Result<Seq<FieldDecl>, Seq<char>> {
    match yaml_table(text) {
        Ok(table) => table_decls(table),
        Err(e) => Err(parse_message(e)),
    }
}

/// The row of a table that says what a field specification says.
pub open spec fn row_of(d: FieldDecl, index: usize) -> (usize, Seq<(Seq<char>, Seq<char>)>) {
    (
        index,
        seq![
            ("Label"@, d.label),
            ("ContentType"@, d.char_type.token()),
            ("LengthType"@, d.size_type.token()),
            ("Length"@, decimal_chars(d.length as nat)),
        ],
    )
}

/// The table that says what a list of field specifications says.
pub open spec fn table_of(decls: Seq<FieldDecl>) -> Seq<(usize, Seq<(Seq<char>, Seq<char>)>)> {
    Seq::new(decls.len(), |i: int| row_of(decls[i], i as usize))
}

/// The fields or the error of a result, over plain values.
pub open spec fn outcome(r: Result<Vec<IsoField>, String>) -> Result<Seq<FieldDecl>, Seq<char>> {
    match r {
        Ok(fields) => Ok(fields.deep_view()),
        Err(e) => Err(e@),
    }
}

/// The text of a decimal digit.
fn digit_str(d: usize) -> (s: &'static str)
    requires
        d < 10,
    ensures
        s@ == seq![digit_of(d as nat)],
{
    proof {
        reveal_strlit("0");
        reveal_strlit("1");
        reveal_strlit("2");
        reveal_strlit("3");
        reveal_strlit("4");
        reveal_strlit("5");
        reveal_strlit("6");
        reveal_strlit("7");
        reveal_strlit("8");
        reveal_strlit("9");
    }
    let s = if d == 0 {
        "0"
    } else if d == 1 {
        "1"
    } else if d == 2 {
        "2"
    } else if d == 3 {
        "3"
    } else if d == 4 {
        "4"
    } else if d == 5 {
        "5"
    } else if d == 6 {
        "6"
    } else if d == 7 {
        "7"
    } else if d == 8 {
        "8"
    } else {
        "9"
    };
    assert(s@ =~= seq![digit_of(d as nat)]);
    s
}

/// The decimal numeral of a number, without leading zeros.
pub fn decimal_string(n: usize) -> (s: String)
    ensures
        s@ == decimal_chars(n as nat),
    decreases n,
{
    if n < 10 {
        String::from_str(digit_str(n))
    } else {
        let mut s = decimal_string(n / 10);
        s.append(digit_str(n % 10));
        assert(s@ =~= decimal_chars((n / 10) as nat).push(digit_of((n % 10) as nat)));
        s
    }
}

/// Reads a number as `str::parse` does: an optional `+`, then decimal
/// digits.
pub fn parse_usize(s: &str) -> (r: Option<usize>)
    ensures
        r == parsed_usize(vstd::utf8::encode_utf8(s@)),
{
    let bytes = s.as_bytes();
    let ghost all = bytes@;
    let start: usize = if bytes.len() > 0 && bytes[0] == 0x2b {
        1
    } else {
        0
    };
    let ghost digits = all.skip(start as int);
    proof {
        assert(all.skip(0) =~= all);
    }
    if bytes.len() == start {
        return None;
    }
    let mut value: usize = 0;
    let mut i: usize = start;
    while i < bytes.len()
        invariant
            start <= i <= bytes@.len(),
            all == bytes@,
            all == vstd::utf8::encode_utf8(s@),
            start == (if all.len() > 0 && all[0] == 0x2b {
                1int
            } else {
                0int
            }),
            all.len() > start,
            digits == all.skip(start as int),
            all.skip(0) == all,
            all_digits(digits.take(i - start)),
            value == digits_value(digits.take(i - start)),
        decreases bytes@.len() - i,
    {
        let c = bytes[i];
        let ghost shorter = digits.take(i - start);
        let ghost longer = digits.take(i + 1 - start);
        proof {
            assert(longer.drop_last() =~= shorter);
            assert(longer.last() == c);
        }
        if c < 0x30 || c > 0x39 {
            proof {
                assert(!crate::numeral::is_digit(digits[i - start]));
            }
            return None;
        }
        let d: usize = (c - 0x30) as usize;
        if value > (usize::MAX - d) / 10 {
            proof {
                assert(digits_value(longer) == 10 * value + d);
                assert(digits_value(longer) > usize::MAX);
                lemma_digits_value_grows(digits, (i + 1 - start) as nat);
            }
            return None;
        }
        value = value * 10 + d;
        proof {
            assert forall|k: int| 0 <= k < longer.len() implies crate::numeral::is_digit(
                #[trigger] longer[k],
            ) by {
                if k < shorter.len() {
                    assert(longer[k] == shorter[k]);
                }
            }
        }
        i += 1;
    }
    proof {
        assert(digits.take(i - start) =~= digits);
    }
    Some(value)
}

/// A numeral with more digits does not denote less.
proof fn lemma_digits_value_grows(s: Seq<u8>, n: nat)
    requires
        n <= s.len(),
    ensures
        digits_value(s.take(n as int)) <= digits_value(s),
    decreases s.len() - n,
{
    if n == s.len() {
        assert(s.take(n as int) =~= s);
    } else {
        lemma_digits_value_grows(s, n + 1);
        assert(s.take((n + 1) as int).drop_last() =~= s.take(n as int));
    }
}

/// The error for an entry value that cannot be read.
fn entry_error(what: &str, value: &str, index: usize) -> (e: String)
    ensures
        e@ == entry_message(what@, value@, index),
{
    let mut e = String::from_str("Invalid ");
    e.append(what);
    e.append(" ");
    e.append(value);
    e.append(" for Index ");
    let number = decimal_string(index);
    e.append(number.as_str());
    e
}

/// Specification of a message format, loaded from YAML text.
pub struct YamlSpec {
    handle: Vec<IsoField>,
}

impl IsoSpecs for YamlSpec {
    fn get_handle(&self) -> (handle: &Vec<IsoField>)
        ensures
            *handle == self.fields(),
    {
        &self.handle
    }
}

impl YamlSpec {
    /// The fields of the specification.
    pub closed spec fn fields(&self) -> Vec<IsoField> {
        self.handle
    }

    /// The fields of the specification, over plain values.
    pub open spec fn view(&self) -> Seq<FieldDecl> {
        self.fields().deep_view()
    }

    /// Loads a specification from YAML text.
    pub fn new(yaml_string: &str) -> (r: Result<YamlSpec, String>)
        ensures
            (match r {
                Ok(spec) => Ok::<Seq<FieldDecl>, Seq<char>>(spec@),
                Err(e) => Err::<Seq<FieldDecl>, Seq<char>>(e@),
            }) == loaded(yaml_string@),
    {
        match YamlSpec::from_string(yaml_string) {
            Ok(handle) => Ok(YamlSpec { handle }),
            Err(e) => Err(e),
        }
    }

    /// The table that says what a list of fields says: for every field its
    /// position and the entries `Label`, `ContentType`, `LengthType` and
    /// `Length`.
    pub fn to_table(handle: &[IsoField]) -> (table: Vec<(usize, Vec<(String, String)>)>)
        ensures
            table.deep_view() == table_of(handle.deep_view()),
    {
        let mut table: Vec<(usize, Vec<(String, String)>)> = Vec::new();
        let mut index: usize = 0;
        while index < handle.len()
            invariant
                index <= handle@.len(),
                table@.len() == index,
                forall|i: int|
                    0 <= i < index ==> (#[trigger] table@[i]).deep_view() == row_of(
                        handle@[i]@,
                        i as usize,
                    ),
            decreases handle@.len() - index,
        {
            let iso_field = &handle[index];
            let mut map: Vec<(String, String)> = Vec::new();
            map.push((String::from_str("Label"), iso_field.label.clone()));
            map.push(
                (String::from_str("ContentType"), String::from_str(iso_field.char_type.as_str())),
            );
            map.push(
                (String::from_str("LengthType"), String::from_str(iso_field.size_type.as_str())),
            );
            map.push((String::from_str("Length"), decimal_string(iso_field.length)));
            proof {
                assert(map.deep_view() =~= row_of(iso_field@, index).1);
            }
            table.push((index, map));
            index += 1;
        }
        proof {
            assert(table.deep_view() =~= table_of(handle.deep_view()));
        }
        table
    }

    /// Writes a list of fields out as YAML text.
    pub fn to_string(handle: &[IsoField]) -> (r: Result<String, String>)
        ensures
            (match r {
                Ok(text) => Ok::<Seq<char>, Seq<char>>(text@),
                Err(e) => Err::<Seq<char>, Seq<char>>(e@),
            }) == yaml_text(table_of(handle.deep_view())),
    {
        let table = YamlSpec::to_table(handle);
        render_table(&table)
    }

    /// The fields that the entries of one position give.
    pub fn field_of_entries(pairs: &Vec<(String, String)>, index: usize) -> (r: Result<
        IsoField,
        String,
    >)
        ensures
            (match r {
                Ok(field) => Ok::<FieldDecl, Seq<char>>(field@),
                Err(e) => Err::<FieldDecl, Seq<char>>(e@),
            }) == apply_pairs(pairs.deep_view(), index, pairs@.len()),
    {
        let mut char_type = FieldCharType::Iso8583_ans;
        let mut length_type = FieldSizeType::Fixed;
        let mut field_length: usize = 0;
        let mut label = String::from_str("");
        let ghost entries = pairs.deep_view();
        proof {
            reveal_strlit("");
            assert(label@ =~= Seq::<char>::empty());
        }
        let mut j: usize = 0;
        while j < pairs.len()
            invariant
                j <= pairs@.len(),
                entries == pairs.deep_view(),
                entries.len() == pairs@.len(),
                apply_pairs(entries, index, j as nat) == Ok::<FieldDecl, Seq<char>>(
                    FieldDecl {
                        label: label@,
                        char_type,
                        size_type: length_type,
                        length: field_length,
                    },
                ),
            decreases pairs@.len() - j,
        {
            let pair = &pairs[j];
            let a = pair.0.as_str();
            let b = pair.1.as_str();
            proof {
                assert(entries[j as int] == (a@, b@));
            }
            if same_text(a, "Label") {
                label = String::from_str(b);
            } else if same_text(a, "ContentType") {
                match FieldCharType::parse(b) {
                    Err(_) => {
                        proof {
                            lemma_error_stays(entries, index, (j + 1) as nat, entries.len());
                        }
                        return Err(entry_error("ContentType", b, index));
                    },
                    Ok(c) => {
                        char_type = c;
                    },
                }
            } else if same_text(a, "LengthType") || same_text(a, "LenType") {
                match FieldSizeType::parse(b) {
                    Err(_) => {
                        proof {
                            lemma_error_stays(entries, index, (j + 1) as nat, entries.len());
                        }
                        return Err(entry_error("LengthType", b, index));
                    },
                    Ok(lt) => {
                        length_type = lt;
                    },
                }
            } else if same_text(a, "Length") || same_text(a, "MaxLen") {
                match parse_usize(b) {
                    None => {
                        proof {
                            lemma_error_stays(entries, index, (j + 1) as nat, entries.len());
                        }
                        return Err(entry_error("Length/MaxLen", b, index));
                    },
                    Some(l) => {
                        field_length = l;
                    },
                }
            }
            j += 1;
        }
        Ok(IsoField::new(label.as_str(), char_type, field_length, length_type))
    }

    /// The fields that a table gives. Row `i` has to be for position `i`.
    pub fn fields_of_table(table: &Vec<(usize, Vec<(String, String)>)>) -> (r: Result<
        Vec<IsoField>,
        String,
    >)
        ensures
            outcome(r) == table_decls(table.deep_view()),
    {
        let ghost rows = table.deep_view();
        let mut handle: Vec<IsoField> = Vec::new();
        let mut i: usize = 0;
        proof {
            assert(handle.deep_view() =~= Seq::<FieldDecl>::empty());
        }
        while i < table.len()
            invariant
                i <= table@.len(),
                rows == table.deep_view(),
                rows.len() == table@.len(),
                handle@.len() == i,
                decls_upto(rows, i as nat) == Ok::<Seq<FieldDecl>, Seq<char>>(handle.deep_view()),
            decreases table@.len() - i,
        {
            let row = &table[i];
            let index = row.0;
            proof {
                assert(rows[i as int] == (index, row.1.deep_view()));
            }
            if index != i {
                let mut e = String::from_str("Index ");
                let number = decimal_string(index);
                e.append(number.as_str());
                e.append(" is out of order");
                proof {
                    lemma_rows_error_stays(rows, (i + 1) as nat, rows.len());
                }
                return Err(e);
            }
            match YamlSpec::field_of_entries(&row.1, index) {
                Err(e) => {
                    proof {
                        lemma_rows_error_stays(rows, (i + 1) as nat, rows.len());
                    }
                    return Err(e);
                },
                Ok(iso_field) => {
                    let ghost before = handle.deep_view();
                    handle.push(iso_field);
                    proof {
                        assert(handle.deep_view() =~= before.push(iso_field@));
                    }
                },
            }
            i += 1;
        }
        Ok(handle)
    }

    /// Loads the fields of a specification from YAML text.
    pub fn from_string(yaml_string: &str) -> (r: Result<Vec<IsoField>, String>)
        ensures
            outcome(r) == loaded(yaml_string@),
    {
        match parse_table(yaml_string) {
            Err(e) => {
                let mut message = String::from_str("Failed to parse yaml file. Err: ");
                message.append(e.as_str());
                message.append(" ");
                Err(message)
            },
            Ok(table) => YamlSpec::fields_of_table(&table),
        }
    }
}

/// Once an entry could not be read, the error stays.
proof fn lemma_error_stays(pairs: Seq<(Seq<char>, Seq<char>)>, index: usize, n: nat, m: nat)
    requires
        n <= m,
        apply_pairs(pairs, index, n) is Err,
    ensures
        apply_pairs(pairs, index, m) == apply_pairs(pairs, index, n),
    decreases m,
{
    if n < m {
        lemma_error_stays(pairs, index, n, (m - 1) as nat);
    }
}

/// Once a row could not be read, the error stays.
proof fn lemma_rows_error_stays(table: Seq<(usize, Seq<(Seq<char>, Seq<char>)>)>, n: nat, m: nat)
    requires
        n <= m,
        decls_upto(table, n) is Err,
    ensures
        decls_upto(table, m) == decls_upto(table, n),
    decreases m,
{
    if n < m {
        lemma_rows_error_stays(table, n, (m - 1) as nat);
    }
}

} // verus!
