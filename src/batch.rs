//! Batches encoded as one text value, for the database to expand into rows.
//!
//! Seed rows travel as a JSON array of records,
//! `[{"name":"item0001","price":11.25},{"name":"item0002","price":null},...]`;
//! identifiers travel as a bracketed list, `[10, 20, 381, 35]`.

use vstd::prelude::*;
use vstd::string::StringExecFns;
use crate::decimal::{decimal_digits, decimal_text, padded_digits, push_decimal, push_digits, push_padded};
use crate::seed::SeedRow;

verus! {

/// `parts` with `sep` between each two of them.
pub open spec fn joined(parts: Seq<Seq<char>>, sep: Seq<char>) -> Seq<char>
    decreases parts.len(),
{
    if parts.len() == 0 {
        seq![]
    } else if parts.len() == 1 {
        parts[0]
    } else {
        parts[0] + sep + joined(parts.drop_first(), sep)
    }
}

/// Text that a JSON string holds as it is: no quote, no backslash and no
/// control character.
pub open spec fn plain_json_text(s: Seq<char>) -> bool {
    forall|i: int| 0 <= i < s.len() ==> #[trigger] s[i] != '"' && s[i] != '\\' && s[i] as u32 >= 0x20
}

/// The JSON string literal that serde_json writes for a text.
pub uninterp spec fn json_string_of(s: Seq<char>) -> Seq<char>;

/// Relies on `serde_json::to_string` on a `str`: it writes the JSON string
/// literal of the text, and leaves every character other than a quote, a
/// backslash or a control character unescaped between the two quotes
/// (`format_escaped_str` and its `ESCAPE` table). Serializing a `str` into
/// memory has no error path.
#[verifier::external_body]
fn json_string(s: &str) -> (r: String)
    ensures
        r@ == json_string_of(s@),
        plain_json_text(s@) ==> r@ == seq!['"'] + s@ + seq!['"'],
{
    serde_json::to_string(s).unwrap()
}

/// A text as a JSON string literal: between quotes as it is where it holds
/// nothing to escape, else as serde_json escapes it.
pub open spec fn json_string_text(s: Seq<char>) -> Seq<char> {
    if plain_json_text(s) {
        seq!['"'] + s + seq!['"']
    } else {
        json_string_of(s)
    }
}

/// A price in hundredths as a JSON number with two fractional digits.
pub open spec fn price_text(cents: nat) -> Seq<char> {
    decimal_digits(cents / 100) + seq!['.'] + padded_digits(cents % 100, 2)
}

/// A seed row as a JSON record; a missing price is `null`.
pub open spec fn record_text(row: (Seq<char>, Option<u32>)) -> Seq<char> {
    seq!['{', '"', 'n', 'a', 'm', 'e', '"', ':'] + json_string_text(row.0) + seq![
        ',',
        '"',
        'p',
        'r',
        'i',
        'c',
        'e',
        '"',
        ':',
    ] + match row.1 {
        Some(c) => price_text(c as nat),
        None => seq!['n', 'u', 'l', 'l'],
    } + seq!['}']
}

/// The records of `rows`, in order.
pub open spec fn record_parts(rows: Seq<(Seq<char>, Option<u32>)>) -> Seq<Seq<char>> {
    rows.map_values(|r: (Seq<char>, Option<u32>)| record_text(r))
}

/// The JSON array of the records of `rows`, in order.
pub open spec fn seed_batch_text(rows: Seq<(Seq<char>, Option<u32>)>) -> Seq<char> {
    seq!['['] + joined(record_parts(rows), seq![',']) + seq![']']
}

/// The decimal texts of `ids`, in order.
pub open spec fn id_parts(ids: Seq<i64>) -> Seq<Seq<char>> {
    ids.map_values(|x: i64| decimal_text(x as int))
}

/// The bracketed, comma-and-space separated list of `ids`.
pub open spec fn id_batch_text(ids: Seq<i64>) -> Seq<char> {
    seq!['['] + joined(id_parts(ids), seq![',', ' ']) + seq![']']
}

proof fn lemma_joined_push(parts: Seq<Seq<char>>, sep: Seq<char>, p: Seq<char>)
    requires
        parts.len() >= 1,
    ensures
        joined(parts.push(p), sep) == joined(parts, sep) + sep + p,
    decreases parts.len(),
{
    if parts.len() == 1 {
        assert(parts.push(p).drop_first() =~= seq![p]);
        assert(joined(seq![p], sep) == p);
    } else {
        assert(parts.push(p).drop_first() =~= parts.drop_first().push(p));
        lemma_joined_push(parts.drop_first(), sep, p);
        assert(joined(parts.push(p), sep) =~= joined(parts, sep) + sep + p);
    }
}

fn push_record(out: &mut String, row: &SeedRow)
    ensures
        final(out)@ == old(out)@ + record_text(row@),
{
    proof {
        reveal_strlit("{\"name\":");
        reveal_strlit(",\"price\":");
        reveal_strlit("null");
        reveal_strlit(".");
        reveal_strlit("}");
    }
    out.append("{\"name\":");
    let quoted = json_string(row.name.as_str());
    out.append(quoted.as_str());
    out.append(",\"price\":");
    match row.price_cents {
        Some(c) => {
            push_digits(out, (c / 100) as u64);
            out.append(".");
            push_padded(out, (c % 100) as u64, 2);
        },
        None => {
            out.append("null");
        },
    }
    out.append("}");
    assert(final(out)@ =~= old(out)@ + record_text(row@));
}

/// Encodes seed rows as one JSON array of `{"name": .., "price": ..}`
/// records, for the database to expand into insertable rows.
pub fn encode_seed_batch(rows: &Vec<SeedRow>) -> (r: String)
    ensures
        r@ == seed_batch_text(rows@.map_values(|s: SeedRow| s@)),
{
    let ghost views = rows@.map_values(|s: SeedRow| s@);
    proof {
        reveal_strlit("[");
    }
    let mut out = String::from_str("[");
    let mut i: usize = 0;
    while i < rows.len()
        invariant
            i <= rows@.len(),
            views == rows@.map_values(|s: SeedRow| s@),
            out@ == seq!['['] + joined(record_parts(views.take(i as int)), seq![',']),
        decreases rows@.len() - i,
    {
        proof {
            reveal_strlit(",");
        }
        let ghost before = out@;
        if i > 0 {
            out.append(",");
        }
        let ghost mid = out@;
        push_record(&mut out, &rows[i]);
        proof {
            let prev = record_parts(views.take(i as int));
            let x = record_text(views[i as int]);
            assert(views[i as int] == rows@[i as int]@);
            assert(record_parts(views.take(i + 1)) =~= prev.push(x));
            if i > 0 {
                assert(mid =~= before + seq![',']);
                lemma_joined_push(prev, seq![','], x);
            } else {
                assert(prev =~= Seq::<Seq<char>>::empty());
                assert(joined(seq![x], seq![',']) == x);
            }
        }
        i = i + 1;
        assert(out@ =~= seq!['['] + joined(record_parts(views.take(i as int)), seq![',']));
    }
    proof {
        reveal_strlit("]");
    }
    out.append("]");
    assert(views.take(rows@.len() as int) =~= views);
    assert(out@ =~= seed_batch_text(views));
    out
}

/// Encodes identifiers as one bracketed list, `[10, 20, 381, 35]`, for the
/// database to expand into rows.
pub fn encode_id_batch(ids: &Vec<i64>) -> (r: String)
    ensures
        r@ == id_batch_text(ids@),
{
    proof {
        reveal_strlit("[");
    }
    let mut out = String::from_str("[");
    let mut i: usize = 0;
    while i < ids.len()
        invariant
            i <= ids@.len(),
            out@ == seq!['['] + joined(id_parts(ids@.take(i as int)), seq![',', ' ']),
        decreases ids@.len() - i,
    {
        proof {
            reveal_strlit(", ");
        }
        let ghost before = out@;
        if i > 0 {
            out.append(", ");
        }
        let ghost mid = out@;
        push_decimal(&mut out, ids[i]);
        proof {
            let prev = id_parts(ids@.take(i as int));
            let x = decimal_text(ids@[i as int] as int);
            assert(id_parts(ids@.take(i + 1)) =~= prev.push(x));
            if i > 0 {
                assert(mid =~= before + seq![',', ' ']);
                lemma_joined_push(prev, seq![',', ' '], x);
            } else {
                assert(prev =~= Seq::<Seq<char>>::empty());
                assert(joined(seq![x], seq![',', ' ']) == x);
            }
        }
        i = i + 1;
        assert(out@ =~= seq!['['] + joined(id_parts(ids@.take(i as int)), seq![',', ' ']));
    }
    proof {
        reveal_strlit("]");
    }
    out.append("]");
    assert(ids@.take(ids@.len() as int) =~= ids@);
    assert(out@ =~= id_batch_text(ids@));
    out
}

} // verus!
