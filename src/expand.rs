//! How the database reads an encoded batch back into values, and the proof
//! that each encoding reads back as what was encoded.

use vstd::prelude::*;
use crate::decimal::{decimal_digits, decimal_text, digit_char, padded_digits};
use crate::seed::{seed_name_text, seed_row};
use crate::batch::{
    id_batch_text, id_parts, joined, json_string_text, plain_json_text, price_text, record_parts,
    record_text, seed_batch_text,
};

verus! {

/// A decimal digit character.
pub open spec fn is_digit(c: char) -> bool {
    48 <= c as u32 <= 57
}

/// The length of the run of digits that `s` starts with.
pub open spec fn digit_run(s: Seq<char>) -> nat
    decreases s.len(),
{
    if s.len() > 0 && is_digit(s[0]) {
        1 + digit_run(s.drop_first())
    } else {
        0
    }
}

/// The number that a run of digits stands for.
pub open spec fn digits_value(ds: Seq<char>) -> nat
    decreases ds.len(),
{
    if ds.len() == 0 {
        0
    } else {
        digits_value(ds.drop_last()) * 10 + (ds.last() as u32 - 48) as nat
    }
}

/// Reads an optionally negative integer at the start of `s`: its value and
/// how many characters it took.
pub open spec fn read_integer(s: Seq<char>) -> Option<(int, nat)> {
    if s.len() > 0 && s[0] == '-' {
        let k = digit_run(s.drop_first());
        if k == 0 {
            None
        } else {
            Some((-digits_value(s.drop_first().take(k as int)), k + 1))
        }
    } else {
        let k = digit_run(s);
        if k == 0 {
            None
        } else {
            Some((digits_value(s.take(k as int)) as int, k))
        }
    }
}

/// Reads integers separated by `, ` that make up all of `s`.
pub open spec fn read_integer_list(s: Seq<char>) -> Option<Seq<int>>
    decreases s.len(),
{
    match read_integer(s) {
        None => None,
        Some((v, k)) => {
            if k == 0 || k > s.len() {
                None
            } else {
                let rest = s.skip(k as int);
                if rest.len() == 0 {
                    Some(seq![v])
                } else if rest.len() >= 2 && rest[0] == ',' && rest[1] == ' ' {
                    match read_integer_list(rest.skip(2)) {
                        Some(t) => Some(seq![v] + t),
                        None => None,
                    }
                } else {
                    None
                }
            }
        },
    }
}

/// Expands an identifier batch into its integers; `None` where the text is
/// not a bracketed list.
pub open spec fn expand_id_batch(s: Seq<char>) -> Option<Seq<int>> {
    if s.len() >= 2 && s[0] == '[' && s.last() == ']' {
        let inner = s.subrange(1, s.len() - 1);
        if inner.len() == 0 {
            Some(seq![])
        } else {
            read_integer_list(inner)
        }
    } else {
        None
    }
}

/// `s` is made of digits only.
pub open spec fn all_digits(s: Seq<char>) -> bool {
    forall|i: int| 0 <= i < s.len() ==> is_digit(#[trigger] s[i])
}

/// `s` does not continue a run of digits.
pub open spec fn ends_run(s: Seq<char>) -> bool {
    s.len() == 0 || !is_digit(s[0])
}

proof fn lemma_digit_char(d: nat)
    requires
        d < 10,
    ensures
        digit_char(d) as u32 == d + 48,
{
    if d == 0 {
    } else if d == 1 {
    } else if d == 2 {
    } else if d == 3 {
    } else if d == 4 {
    } else if d == 5 {
    } else if d == 6 {
    } else if d == 7 {
    } else if d == 8 {
    } else {
    }
}

proof fn lemma_decimal_digits(n: nat)
    ensures
        decimal_digits(n).len() >= 1,
        all_digits(decimal_digits(n)),
        digits_value(decimal_digits(n)) == n,
    decreases n,
{
    lemma_digit_char(n % 10);
    let d = decimal_digits(n);
    if n >= 10 {
        lemma_decimal_digits(n / 10);
        assert(d.drop_last() =~= decimal_digits(n / 10));
        assert(d.last() == digit_char(n % 10));
        assert(n == (n / 10) * 10 + n % 10);
        assert((d.last() as u32 - 48) as nat == n % 10);
        assert(digits_value(d) == digits_value(d.drop_last()) * 10 + (d.last() as u32 - 48) as nat);
        assert(digits_value(d) == (n / 10) * 10 + n % 10);
    } else {
        assert((d.last() as u32 - 48) as nat == n);
        assert(digits_value(d.drop_last()) == 0);
        assert(digits_value(d) == n);
        assert(d.drop_last() =~= Seq::<char>::empty());
        assert(d.last() == digit_char(n));
    }
}

proof fn lemma_digit_run(d: Seq<char>, rest: Seq<char>)
    requires
        all_digits(d),
        ends_run(rest),
    ensures
        digit_run(d + rest) == d.len(),
    decreases d.len(),
{
    if d.len() > 0 {
        assert((d + rest).drop_first() =~= d.drop_first() + rest);
        lemma_digit_run(d.drop_first(), rest);
        assert(is_digit((d + rest)[0]));
    } else {
        assert(d + rest =~= rest);
    }
}

proof fn lemma_read_integer(v: int, rest: Seq<char>)
    requires
        ends_run(rest),
    ensures
        read_integer(decimal_text(v) + rest) == Some((v, decimal_text(v).len())),
{
    let s = decimal_text(v) + rest;
    if v < 0 {
        let d = decimal_digits((-v) as nat);
        lemma_decimal_digits((-v) as nat);
        assert(s.drop_first() =~= d + rest);
        lemma_digit_run(d, rest);
        assert((d + rest).take(d.len() as int) =~= d);
    } else {
        let d = decimal_digits(v as nat);
        lemma_decimal_digits(v as nat);
        lemma_digit_run(d, rest);
        assert(is_digit(s[0]));
        assert(s.take(d.len() as int) =~= d);
    }
}

proof fn lemma_read_integer_list(ids: Seq<i64>)
    requires
        ids.len() >= 1,
    ensures
        read_integer_list(joined(id_parts(ids), seq![',', ' '])) == Some(
            ids.map_values(|x: i64| x as int),
        ),
    decreases ids.len(),
{
    let parts = id_parts(ids);
    let s = joined(parts, seq![',', ' ']);
    let first = decimal_text(ids[0] as int);
    if ids.len() == 1 {
        assert(s == first);
        assert(s =~= first + Seq::<char>::empty());
        lemma_read_integer(ids[0] as int, Seq::<char>::empty());
        assert(s.skip(first.len() as int) =~= Seq::<char>::empty());
        assert(ids.map_values(|x: i64| x as int) =~= seq![ids[0] as int]);
    } else {
        let tail = joined(id_parts(ids.drop_first()), seq![',', ' ']);
        assert(parts.drop_first() =~= id_parts(ids.drop_first()));
        assert(s == first + seq![',', ' '] + tail);
        assert(s =~= first + (seq![',', ' '] + tail));
        lemma_read_integer(ids[0] as int, seq![',', ' '] + tail);
        assert(s.skip(first.len() as int) =~= seq![',', ' '] + tail);
        assert(s.skip(first.len() as int).skip(2) =~= tail);
        lemma_read_integer_list(ids.drop_first());
        assert(ids.map_values(|x: i64| x as int) =~= seq![ids[0] as int] + ids.drop_first().map_values(
            |x: i64| x as int,
        ));
    }
}

/// An identifier batch expands back into exactly the identifiers it was
/// encoded from, in order.
pub proof fn lemma_id_batch_round_trip(ids: Seq<i64>)
    ensures
        expand_id_batch(id_batch_text(ids)) == Some(ids.map_values(|x: i64| x as int)),
{
    let s = id_batch_text(ids);
    let body = joined(id_parts(ids), seq![',', ' ']);
    assert(s.subrange(1, s.len() - 1) =~= body);
    if ids.len() == 0 {
        assert(body =~= Seq::<char>::empty());
        assert(ids.map_values(|x: i64| x as int) =~= Seq::<int>::empty());
    } else {
        lemma_read_integer_list(ids);
        let d = decimal_text(ids[0] as int);
        if ids[0] >= 0 {
            lemma_decimal_digits(ids[0] as nat);
        } else {
            lemma_decimal_digits((-ids[0]) as nat);
        }
        assert(d.len() >= 1);
        lemma_joined_len(id_parts(ids), seq![',', ' ']);
    }
}

proof fn lemma_joined_len(parts: Seq<Seq<char>>, sep: Seq<char>)
    requires
        parts.len() >= 1,
        parts[0].len() >= 1,
    ensures
        joined(parts, sep).len() >= 1,
{
    if parts.len() > 1 {
        assert(joined(parts, sep) == parts[0] + sep + joined(parts.drop_first(), sep));
    }
}

/// The length of the run of characters other than a quote or a backslash
/// that `s` starts with.
pub open spec fn plain_run(s: Seq<char>) -> nat
    decreases s.len(),
{
    if s.len() > 0 && s[0] != '"' && s[0] != '\\' {
        1 + plain_run(s.drop_first())
    } else {
        0
    }
}

/// Reads a JSON string with no escape at the start of `s`: its text and how
/// many characters it took.
pub open spec fn read_plain_string(s: Seq<char>) -> Option<(Seq<char>, nat)> {
    if s.len() > 0 && s[0] == '"' {
        let k = plain_run(s.drop_first()) as int;
        if k + 1 < s.len() && s[k + 1] == '"' {
            Some((s.subrange(1, k + 1), (k + 2) as nat))
        } else {
            None
        }
    } else {
        None
    }
}

/// Reads a price at the start of `s`, `null` or a number with two fractional
/// digits, in hundredths.
pub open spec fn read_price(s: Seq<char>) -> Option<(Option<int>, nat)> {
    if s.len() >= 4 && s.take(4) == seq!['n', 'u', 'l', 'l'] {
        Some((None, 4))
    } else {
        let k = digit_run(s) as int;
        if k >= 1 && k + 3 <= s.len() && s[k] == '.' && is_digit(s[k + 1]) && is_digit(
            s[k + 2],
        ) {
            Some(
                (
                    Some(digits_value(s.take(k)) * 100 + digits_value(s.subrange(k + 1, k + 3)) as int),
                    (k + 3) as nat,
                ),
            )
        } else {
            None
        }
    }
}

/// The text before a record's name.
pub open spec fn name_key() -> Seq<char> {
    seq!['{', '"', 'n', 'a', 'm', 'e', '"', ':']
}

/// The text between a record's name and its price.
pub open spec fn price_key() -> Seq<char> {
    seq![',', '"', 'p', 'r', 'i', 'c', 'e', '"', ':']
}

/// Reads one `{"name":..,"price":..}` record at the start of `s`: its name,
/// its price in hundredths, and how many characters it took.
pub open spec fn read_record(s: Seq<char>) -> Option<((Seq<char>, Option<int>), nat)> {
    if s.len() >= 8 && s.take(8) == name_key() {
        match read_plain_string(s.skip(8)) {
            Some((name, k1)) => {
                let t = s.skip(8 + k1 as int);
                if t.len() >= 9 && t.take(9) == price_key() {
                    match read_price(t.skip(9)) {
                        Some((price, k2)) => {
                            let u = t.skip(9 + k2 as int);
                            if u.len() >= 1 && u[0] == '}' {
                                Some(((name, price), 8 + k1 + 9 + k2 + 1))
                            } else {
                                None
                            }
                        },
                        None => None,
                    }
                } else {
                    None
                }
            },
            None => None,
        }
    } else {
        None
    }
}

/// Reads records separated by `,` that make up all of `s`.
pub open spec fn read_record_list(s: Seq<char>) -> Option<Seq<(Seq<char>, Option<int>)>>
    decreases s.len(),
{
    match read_record(s) {
        None => None,
        Some((r, k)) => {
            if k == 0 || k > s.len() {
                None
            } else {
                let rest = s.skip(k as int);
                if rest.len() == 0 {
                    Some(seq![r])
                } else if rest[0] == ',' {
                    match read_record_list(rest.skip(1)) {
                        Some(t) => Some(seq![r] + t),
                        None => None,
                    }
                } else {
                    None
                }
            }
        },
    }
}

/// Expands a seed batch into its records; `None` where the text is not a
/// JSON array of such records.
pub open spec fn expand_seed_batch(s: Seq<char>) -> Option<Seq<(Seq<char>, Option<int>)>> {
    if s.len() >= 2 && s[0] == '[' && s.last() == ']' {
        let inner = s.subrange(1, s.len() - 1);
        if inner.len() == 0 {
            Some(seq![])
        } else {
            read_record_list(inner)
        }
    } else {
        None
    }
}

/// A seed row as the database reads it back: its name, and its price in
/// hundredths where it has one.
pub open spec fn stored_record(row: (Seq<char>, Option<u32>)) -> (Seq<char>, Option<int>) {
    (
        row.0,
        match row.1 {
            Some(c) => Some(c as int),
            None => None,
        },
    )
}

/// Every row's name is a plain JSON text.
pub open spec fn plain_names(rows: Seq<(Seq<char>, Option<u32>)>) -> bool {
    forall|i: int| 0 <= i < rows.len() ==> plain_json_text(#[trigger] rows[i].0)
}

proof fn lemma_plain_run(name: Seq<char>, rest: Seq<char>)
    requires
        plain_json_text(name),
        rest.len() > 0,
        rest[0] == '"',
    ensures
        plain_run(name + rest) == name.len(),
    decreases name.len(),
{
    if name.len() > 0 {
        assert((name + rest).drop_first() =~= name.drop_first() + rest);
        assert(plain_json_text(name.drop_first()));
        lemma_plain_run(name.drop_first(), rest);
    } else {
        assert(name + rest =~= rest);
    }
}

proof fn lemma_read_plain_string(name: Seq<char>, rest: Seq<char>)
    requires
        plain_json_text(name),
    ensures
        read_plain_string(json_string_text(name) + rest) == Some((name, name.len() + 2)),
{
    let s = json_string_text(name) + rest;
    assert(s.drop_first() =~= name + (seq!['"'] + rest));
    lemma_plain_run(name, seq!['"'] + rest);
    assert(s.subrange(1, name.len() as int + 1) =~= name);
}

proof fn lemma_single_digit(c: char)
    ensures
        digits_value(seq![c]) == (c as u32 - 48) as nat,
{
    assert(seq![c].drop_last() =~= Seq::<char>::empty());
    assert(seq![c].last() == c);
    assert(digits_value(Seq::<char>::empty()) == 0);
    assert(digits_value(seq![c]) == digits_value(seq![c].drop_last()) * 10 + (seq![c].last() as u32
        - 48) as nat);
}

proof fn lemma_two_digits(n: nat)
    requires
        n < 100,
    ensures
        padded_digits(n, 2).len() == 2,
        is_digit(padded_digits(n, 2)[0]),
        is_digit(padded_digits(n, 2)[1]),
        digits_value(padded_digits(n, 2)) == n,
{
    let p = padded_digits(n, 2);
    lemma_digit_char(n % 10);
    if n < 10 {
        assert(decimal_digits(n) == seq![digit_char(n)]);
        assert(p =~= seq!['0', digit_char(n)]);
        assert(p.drop_last() =~= seq!['0']);
        lemma_single_digit('0');
        lemma_digit_char(0);
        assert(digit_char(0) == '0');
    } else {
        lemma_digit_char(n / 10);
        assert(decimal_digits(n / 10) == seq![digit_char(n / 10)]);
        assert(decimal_digits(n) =~= seq![digit_char(n / 10), digit_char(n % 10)]);
        assert(p =~= seq![digit_char(n / 10), digit_char(n % 10)]);
        assert(p.drop_last() =~= seq![digit_char(n / 10)]);
        lemma_single_digit(digit_char(n / 10));
    }
}

proof fn lemma_read_price(price: Option<u32>, rest: Seq<char>)
    requires
        rest.len() > 0,
        rest[0] == '}',
    ensures
        ({
            let text = match price {
                Some(c) => price_text(c as nat),
                None => seq!['n', 'u', 'l', 'l'],
            };
            read_price(text + rest) == Some((stored_record((seq![], price)).1, text.len()))
        }),
{
    match price {
        Some(c) => {
            let c = c as nat;
            let whole = decimal_digits(c / 100);
            let frac = padded_digits(c % 100, 2);
            let s = price_text(c) + rest;
            lemma_decimal_digits(c / 100);
            lemma_two_digits(c % 100);
            assert(s =~= whole + (seq!['.'] + frac + rest));
            lemma_digit_run(whole, seq!['.'] + frac + rest);
            assert(is_digit(s[0]));
            assert(s.take(4) != seq!['n', 'u', 'l', 'l']) by {
                assert(s.take(4)[0] == s[0]);
            }
            assert(s.take(whole.len() as int) =~= whole);
            assert(s.subrange(whole.len() as int + 1, whole.len() as int + 3) =~= frac);
            assert(c == (c / 100) * 100 + c % 100);
        },
        None => {
            let s = seq!['n', 'u', 'l', 'l'] + rest;
            assert(s.take(4) =~= seq!['n', 'u', 'l', 'l']);
        },
    }
}

#[verifier::rlimit(100)]
proof fn lemma_read_record(row: (Seq<char>, Option<u32>), rest: Seq<char>)
    requires
        plain_json_text(row.0),
        rest.len() == 0 || rest[0] == ',',
    ensures
        read_record(record_text(row) + rest) == Some((stored_record(row), record_text(row).len())),
{
    let name = json_string_text(row.0);
    let price = match row.1 {
        Some(c) => price_text(c as nat),
        None => seq!['n', 'u', 'l', 'l'],
    };
    let tail = seq!['}'] + rest;
    let after_name = price_key() + price + tail;
    let s = record_text(row) + rest;
    assert(name.len() == row.0.len() + 2);
    assert(s =~= name_key() + (name + after_name));
    assert(s.take(8) =~= name_key());
    assert(s.skip(8) =~= name + after_name);
    lemma_read_plain_string(row.0, after_name);
    assert(read_plain_string(s.skip(8)) == Some((row.0, name.len())));
    let t = s.skip(8 + name.len() as int);
    assert(t =~= after_name);
    assert(t.take(9) =~= price_key());
    assert(t.skip(9) =~= price + tail);
    lemma_read_price(row.1, tail);
    assert(read_price(t.skip(9)) == Some((stored_record(row).1, price.len())));
    let u = t.skip(9 + price.len() as int);
    assert(u =~= tail);
    assert(u[0] == '}');
    assert(record_text(row).len() == 8 + name.len() + 9 + price.len() + 1);
}

#[verifier::rlimit(60)]
proof fn lemma_read_record_list(rows: Seq<(Seq<char>, Option<u32>)>)
    requires
        rows.len() >= 1,
        plain_names(rows),
    ensures
        read_record_list(joined(record_parts(rows), seq![','])) == Some(
            rows.map_values(|r: (Seq<char>, Option<u32>)| stored_record(r)),
        ),
    decreases rows.len(),
{
    let parts = record_parts(rows);
    let s = joined(parts, seq![',']);
    let first = record_text(rows[0]);
    assert(plain_json_text(rows[0].0));
    if rows.len() == 1 {
        assert(s == first);
        assert(s =~= first + Seq::<char>::empty());
        lemma_read_record(rows[0], Seq::<char>::empty());
        assert(s.skip(first.len() as int) =~= Seq::<char>::empty());
        assert(rows.map_values(|r: (Seq<char>, Option<u32>)| stored_record(r)) =~= seq![
            stored_record(rows[0]),
        ]);
    } else {
        let tail = joined(record_parts(rows.drop_first()), seq![',']);
        assert(parts.drop_first() =~= record_parts(rows.drop_first()));
        assert(s == first + seq![','] + tail);
        assert(s =~= first + (seq![','] + tail));
        lemma_read_record(rows[0], seq![','] + tail);
        assert(s.skip(first.len() as int) =~= seq![','] + tail);
        assert(s.skip(first.len() as int).skip(1) =~= tail);
        assert(plain_names(rows.drop_first())) by {
            assert forall|i: int| 0 <= i < rows.drop_first().len() implies plain_json_text(
                #[trigger] rows.drop_first()[i].0,
            ) by {
                assert(rows.drop_first()[i] == rows[i + 1]);
            }
        }
        lemma_read_record_list(rows.drop_first());
        assert(rows.map_values(|r: (Seq<char>, Option<u32>)| stored_record(r)) =~= seq![
            stored_record(rows[0]),
        ] + rows.drop_first().map_values(|r: (Seq<char>, Option<u32>)| stored_record(r)));
    }
}

/// A seed batch expands back into exactly the rows it was encoded from, in
/// order, a missing price included, for rows whose names need no escaping.
pub proof fn lemma_seed_batch_round_trip(rows: Seq<(Seq<char>, Option<u32>)>)
    requires
        plain_names(rows),
    ensures
        expand_seed_batch(seed_batch_text(rows)) == Some(
            rows.map_values(|r: (Seq<char>, Option<u32>)| stored_record(r)),
        ),
{
    let s = seed_batch_text(rows);
    let body = joined(record_parts(rows), seq![',']);
    assert(s.subrange(1, s.len() - 1) =~= body);
    if rows.len() == 0 {
        assert(body =~= Seq::<char>::empty());
        assert(rows.map_values(|r: (Seq<char>, Option<u32>)| stored_record(r)) =~= Seq::<
            (Seq<char>, Option<int>),
        >::empty());
    } else {
        lemma_read_record_list(rows);
        lemma_joined_len(record_parts(rows), seq![',']);
    }
}

proof fn lemma_seed_name_plain(i: nat)
    ensures
        plain_json_text(seed_name_text(i)),
{
    let d = decimal_digits(i + 1);
    lemma_decimal_digits(i + 1);
    let name = seed_name_text(i);
    assert forall|j: int| 0 <= j < name.len() implies #[trigger] name[j] != '"' && name[j] != '\\'
        && name[j] as u32 >= 0x20 by {
        if j >= name.len() - d.len() {
            assert(name[j] == d[j - (name.len() - d.len())]);
            assert(is_digit(d[j - (name.len() - d.len())]));
        }
    }
}

/// The batch that seeds an empty table expands back into exactly the seed
/// rows: names, prices and missing prices alike.
pub proof fn lemma_seed_rows_round_trip(rows: Seq<(Seq<char>, Option<u32>)>)
    requires
        forall|i: int| 0 <= i < rows.len() ==> #[trigger] rows[i] == seed_row(i as nat),
    ensures
        expand_seed_batch(seed_batch_text(rows)) == Some(
            rows.map_values(|r: (Seq<char>, Option<u32>)| stored_record(r)),
        ),
{
    assert forall|i: int| 0 <= i < rows.len() implies plain_json_text(#[trigger] rows[i].0) by {
        assert(rows[i] == seed_row(i as nat));
        lemma_seed_name_plain(i as nat);
    }
    lemma_seed_batch_round_trip(rows);
}

} // verus!
