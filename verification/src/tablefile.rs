//! The persisted staleness-store file: one `path=timestamp` record per
//! line.  Parsing recovers the records; serialization renders a key order
//! and a mapping back into that shape.

use vstd::prelude::*;

use crate::strutil::{
    dec_str, dec_val, first_index, is_dec_digits, is_digit_char, lemma_dec_str_value,
    lemma_first_index_found, lemma_first_index_none, lemma_first_index_properties, parse_u64,
    str_first_index_of,
};

verus! {

/// `s` can stand on one line as a record key: it holds neither the
/// key-value separator nor a line break.
pub open spec fn line_safe(s: Seq<char>) -> bool {
    !s.contains('=') && !s.contains('\n')
}

/// Whether `s` may serve as a store key, decided at run time.
pub fn is_line_safe(s: &str) -> (r: bool)
    ensures
        r == line_safe(s@),
{
    let eq = str_first_index_of(s, '=');
    let nl = str_first_index_of(s, '\n');
    proof {
        lemma_first_index_properties(s@, '=');
        lemma_first_index_properties(s@, '\n');
        if s@.contains('=') {
            let w = choose|j: int| 0 <= j < s@.len() && s@[j] == '=';
            assert(first_index(s@, '=') >= 0);
        }
        if s@.contains('\n') {
            let w = choose|j: int| 0 <= j < s@.len() && s@[j] == '\n';
            assert(first_index(s@, '\n') >= 0);
        }
    }
    eq.is_none() && nl.is_none()
}

/// One record, parsed: the key runs to the first `=`, the value from
/// there to the next `=` or the end, and must be a decimal `u64`.
/// A line that does not fit this shape carries no record.
pub open spec fn parse_line(line: Seq<char>) -> Option<(Seq<char>, u64)> {
    let e = first_index(line, '=');
    if e < 0 {
        None
    } else {
        let key = line.take(e);
        let rest = line.skip(e + 1);
        let e2 = first_index(rest, '=');
        let valstr = if e2 < 0 { rest } else { rest.take(e2) };
        if is_dec_digits(valstr) && dec_val(valstr) <= u64::MAX {
            Some((key, dec_val(valstr) as u64))
        } else {
            None
        }
    }
}

/// Parses one line of the store file.
pub fn parse_table_line(line: &str) -> (r: Option<(String, u64)>)
    ensures
        match r {
            Some(kv) => parse_line(line@) == Some((kv.0@, kv.1)),
            None => parse_line(line@) is None,
        },
{
    let n = line.unicode_len();
    let e = match str_first_index_of(line, '=') {
        Some(e) => e,
        None => {
            return None;
        },
    };
    let key = String::from_str(line.substring_char(0, e));
    let rest = line.substring_char(e + 1, n);
    let valstr = match str_first_index_of(rest, '=') {
        Some(e2) => rest.substring_char(0, e2),
        None => rest,
    };
    proof {
        assert(rest@ =~= line@.skip(e + 1));
        assert(key@ =~= line@.take(e as int));
    }
    match parse_u64(valstr) {
        Some(v) => Some((key, v)),
        None => None,
    }
}

/// The records of a whole store file: each line parsed in order, lines
/// that carry no record skipped.
pub open spec fn parse_table_spec(s: Seq<char>) -> Seq<(Seq<char>, u64)>
    decreases s.len(),
    via parse_table_spec_decreases
{
    if s.len() == 0 {
        Seq::empty()
    } else {
        let i = first_index(s, '\n');
        let line = if i < 0 { s } else { s.take(i) };
        let rest = if i < 0 { Seq::<char>::empty() } else { s.skip(i + 1) };
        match parse_line(line) {
            Some(kv) => seq![kv] + parse_table_spec(rest),
            None => parse_table_spec(rest),
        }
    }
}

#[via_fn]
proof fn parse_table_spec_decreases(s: Seq<char>) {
    lemma_first_index_properties(s, '\n');
}

/// The views of parsed records.
pub open spec fn pairs_view(v: Seq<(String, u64)>) -> Seq<(Seq<char>, u64)> {
    v.map_values(|kv: (String, u64)| (kv.0@, kv.1))
}

/// Parses the whole store file into its records, in file order.
pub fn parse_table(contents: &str) -> (r: Vec<(String, u64)>)
    ensures
        pairs_view(r@) == parse_table_spec(contents@),
{
    let mut out: Vec<(String, u64)> = Vec::new();
    let mut rest: &str = contents;
    proof {
        assert(pairs_view(out@) + parse_table_spec(rest@) =~= parse_table_spec(contents@));
    }
    loop
        invariant
            pairs_view(out@) + parse_table_spec(rest@) =~= parse_table_spec(contents@),
        ensures
            pairs_view(out@) =~= parse_table_spec(contents@),
        decreases rest@.len(),
    {
        let n = rest.unicode_len();
        if n == 0 {
            proof {
                assert(pairs_view(out@) + parse_table_spec(rest@) =~= pairs_view(out@));
            }
            break;
        }
        let ghost prev = rest@;
        let line: &str;
        match str_first_index_of(rest, '\n') {
            Some(i) => {
                line = rest.substring_char(0, i);
                let next = rest.substring_char(i + 1, n);
                proof {
                    assert(line@ =~= prev.take(i as int));
                    assert(next@ =~= prev.skip(i + 1));
                }
                rest = next;
            },
            None => {
                line = rest;
                let next = rest.substring_char(n, n);
                proof {
                    assert(next@ =~= Seq::<char>::empty());
                }
                rest = next;
            },
        }
        proof {
            assert(prev.len() > 0);
            let li = parse_line(line@);
            if li is Some {
                assert(parse_table_spec(prev) =~= seq![li.unwrap()] + parse_table_spec(rest@));
            } else {
                assert(parse_table_spec(prev) =~= parse_table_spec(rest@));
            }
        }
        match parse_table_line(line) {
            Some(kv) => {
                let ghost kvv = (kv.0@, kv.1);
                out.push(kv);
                proof {
                    assert(pairs_view(out@) =~= pairs_view(out@.drop_last()) + seq![kvv]);
                    assert(pairs_view(out@) + parse_table_spec(rest@) =~= parse_table_spec(
                        contents@,
                    ));
                }
            },
            None => {},
        }
    }
    proof {
        assert(pairs_view(out@) =~= parse_table_spec(contents@));
    }
    out
}

/// One serialized record.
pub open spec fn table_line(k: Seq<char>, v: u64) -> Seq<char> {
    k + seq!['='] + dec_str(v as nat) + seq!['\n']
}

/// The store file serialized from `keys` in order, each key's value
/// taken from `m`.
pub open spec fn serialize_keyed(keys: Seq<Seq<char>>, m: Map<Seq<char>, u64>) -> Seq<char>
    decreases keys.len(),
{
    if keys.len() == 0 {
        Seq::empty()
    } else {
        serialize_keyed(keys.drop_last(), m) + table_line(keys.last(), m[keys.last()])
    }
}

proof fn lemma_parse_one_line(k: Seq<char>, v: u64, rest: Seq<char>)
    requires
        line_safe(k),
    ensures
        parse_table_spec(table_line(k, v) + rest) == seq![(k, v)] + parse_table_spec(rest),
{
    let d = dec_str(v as nat);
    lemma_dec_str_value(v as nat);
    let text = table_line(k, v) + rest;
    let p = k.len() + 1 + d.len();
    assert(text[p as int] == '\n');
    assert forall|j: int| 0 <= j < p implies text[j] != '\n' by {
        if j < k.len() {
            assert(text[j] == k[j]);
            if k[j] == '\n' {
                assert(k.contains('\n'));
            }
        } else if j == k.len() {
            assert(text[j] == '=');
            assert('=' as u32 == 61);
        } else {
            assert(text[j] == d[j - k.len() - 1]);
            assert(is_digit_char(d[j - k.len() - 1]));
            assert('\n' as u32 == 10);
        }
    }
    lemma_first_index_found(text, '\n', p as int);
    let line = text.take(p as int);
    assert(line =~= k + seq!['='] + d);
    assert(text.skip(p as int + 1) =~= rest);
    assert(line[k.len() as int] == '=');
    assert forall|j: int| 0 <= j < k.len() implies line[j] != '=' by {
        assert(line[j] == k[j]);
        if k[j] == '=' {
            assert(k.contains('='));
        }
    }
    lemma_first_index_found(line, '=', k.len() as int);
    assert(line.take(k.len() as int) =~= k);
    assert(line.skip(k.len() as int + 1) =~= d);
    assert forall|j: int| 0 <= j < d.len() implies d[j] != '=' by {
        assert(is_digit_char(d[j]));
        assert('=' as u32 == 61);
    }
    lemma_first_index_none(d, '=');
    assert(is_dec_digits(d));
    assert(parse_line(line) == Some((k, v)));
    assert(text.len() > 0);
    assert(parse_table_spec(text) =~= seq![(k, v)] + parse_table_spec(rest));
}

proof fn lemma_serialize_unfold_front(keys: Seq<Seq<char>>, m: Map<Seq<char>, u64>)
    requires
        keys.len() > 0,
    ensures
        serialize_keyed(keys, m) == table_line(keys[0], m[keys[0]]) + serialize_keyed(
            keys.drop_first(),
            m,
        ),
    decreases keys.len(),
{
    if keys.len() == 1 {
        assert(keys.drop_last() =~= Seq::<Seq<char>>::empty());
        assert(keys.drop_first() =~= Seq::<Seq<char>>::empty());
        assert(serialize_keyed(keys, m) =~= table_line(keys[0], m[keys[0]]) + serialize_keyed(
            keys.drop_first(),
            m,
        ));
    } else {
        let kd = keys.drop_last();
        lemma_serialize_unfold_front(kd, m);
        assert(kd[0] == keys[0]);
        assert(keys.drop_first().drop_last() =~= kd.drop_first());
        assert(keys.drop_first().last() == keys.last());
        assert(serialize_keyed(keys, m) =~= table_line(keys[0], m[keys[0]]) + serialize_keyed(
            keys.drop_first(),
            m,
        ));
    }
}

/// What write-back serializes, loading parses back: over keys that can
/// each stand on one line, the records of the serialized store are
/// exactly the keys in order, each with its mapped value.
pub proof fn lemma_store_round_trip(keys: Seq<Seq<char>>, m: Map<Seq<char>, u64>)
    requires
        forall|i: int| 0 <= i < keys.len() ==> line_safe(#[trigger] keys[i]),
        forall|i: int| 0 <= i < keys.len() ==> m.contains_key(#[trigger] keys[i]),
    ensures
        parse_table_spec(serialize_keyed(keys, m)) == Seq::new(
            keys.len(),
            |i: int| (keys[i], m[keys[i]]),
        ),
    decreases keys.len(),
{
    if keys.len() == 0 {
        assert(parse_table_spec(serialize_keyed(keys, m)) =~= Seq::new(
            keys.len(),
            |i: int| (keys[i], m[keys[i]]),
        ));
    } else {
        lemma_serialize_unfold_front(keys, m);
        lemma_parse_one_line(keys[0], m[keys[0]], serialize_keyed(keys.drop_first(), m));
        assert forall|i: int| 0 <= i < keys.drop_first().len() implies line_safe(
            #[trigger] keys.drop_first()[i],
        ) && m.contains_key(keys.drop_first()[i]) by {
            assert(keys.drop_first()[i] == keys[i + 1]);
        }
        lemma_store_round_trip(keys.drop_first(), m);
        assert(parse_table_spec(serialize_keyed(keys, m)) =~= Seq::new(
            keys.len(),
            |i: int| (keys[i], m[keys[i]]),
        ));
    }
}

} // verus!
