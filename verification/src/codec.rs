//! Byte-exact form of the metadata file.
//!
//! The file holds one object in which every salt, written as sixteen
//! lowercase hexadecimal digits, is bound to its status tag: for example
//! `{"00ff00ff00ff00ff":"Created"}`. The registry rewrites the whole file
//! after every lifecycle change, and the file is owned by the registry alone,
//! so the reader accepts exactly what the writer produces; any other content
//! counts as "no commitments yet", never as an error.

use vstd::prelude::*;

use crate::salt::Salt;
use crate::status::CommitmentStatus;
use crate::table::{entry_views, keys_distinct, lookup, map_of_entries, Table};

verus! {

/// The byte of a double quote.
pub const QUOTE: u8 = 34;

/// The byte of a colon.
pub const COLON: u8 = 58;

/// The byte of a comma.
pub const COMMA: u8 = 44;

/// The byte of an opening brace.
pub const LBRACE: u8 = 123;

/// The byte of a closing brace.
pub const RBRACE: u8 = 125;

/// The byte of the lowercase hexadecimal digit for one value below sixteen.
pub open spec fn hex_digit(n: u8) -> u8
    recommends
        n < 16,
{
    if n < 10 {
        (48 + n) as u8
    } else {
        (87 + n) as u8
    }
}

/// The hexadecimal digit bytes of a byte sequence: two per byte, most
/// significant half first.
pub open spec fn hex_bytes(bytes: Seq<u8>) -> Seq<u8> {
    Seq::new(
        2 * bytes.len(),
        |i: int| if i % 2 == 0 {
            hex_digit((bytes[i / 2] / 16) as u8)
        } else {
            hex_digit((bytes[i / 2] % 16) as u8)
        },
    )
}

/// The tag under which a status stands in the file.
pub open spec fn tag_bytes(st: CommitmentStatus) -> Seq<u8> {
    match st {
        CommitmentStatus::InProgress => seq![73, 110, 80, 114, 111, 103, 114, 101, 115, 115],
        CommitmentStatus::Created => seq![67, 114, 101, 97, 116, 101, 100],
    }
}

/// One entry as it stands in the file: the quoted hexadecimal salt, a colon,
/// and the quoted status tag.
pub open spec fn entry_bytes(key: Seq<u8>, st: CommitmentStatus) -> Seq<u8> {
    seq![QUOTE] + hex_bytes(key) + seq![QUOTE, COLON, QUOTE] + tag_bytes(st) + seq![QUOTE]
}

/// The entries after the first, each preceded by a comma.
pub open spec fn tail_bytes(entries: Seq<(Seq<u8>, CommitmentStatus)>) -> Seq<u8>
    decreases entries.len(),
{
    if entries.len() == 0 {
        Seq::empty()
    } else {
        seq![COMMA] + entry_bytes(entries[0].0, entries[0].1) + tail_bytes(entries.skip(1))
    }
}

/// The whole metadata file for an entry sequence.
pub open spec fn record_bytes(entries: Seq<(Seq<u8>, CommitmentStatus)>) -> Seq<u8> {
    if entries.len() == 0 {
        seq![LBRACE, RBRACE]
    } else {
        seq![LBRACE] + entry_bytes(entries[0].0, entries[0].1) + tail_bytes(entries.skip(1))
            + seq![RBRACE]
    }
}

/// Appending one entry extends the tail by a comma and that entry.
pub proof fn lemma_tail_snoc(entries: Seq<(Seq<u8>, CommitmentStatus)>, e: (Seq<u8>, CommitmentStatus))
    ensures
        tail_bytes(entries.push(e)) == tail_bytes(entries) + seq![COMMA] + entry_bytes(e.0, e.1),
    decreases entries.len(),
{
    if entries.len() == 0 {
        assert(entries.push(e).skip(1) =~= Seq::<(Seq<u8>, CommitmentStatus)>::empty());
        assert(entries.push(e)[0] == e);
        assert(entries.push(e).len() == 1);
        assert(tail_bytes(entries.push(e).skip(1)) == Seq::<u8>::empty());
        assert(tail_bytes(entries.push(e)) == seq![COMMA] + entry_bytes(e.0, e.1) + tail_bytes(
            entries.push(e).skip(1),
        ));
        assert(tail_bytes(entries) == Seq::<u8>::empty());
        assert(tail_bytes(entries.push(e)) =~= tail_bytes(entries) + seq![COMMA] + entry_bytes(
            e.0,
            e.1,
        ));
    } else {
        assert(entries.push(e).skip(1) =~= entries.skip(1).push(e));
        lemma_tail_snoc(entries.skip(1), e);
        assert(entries.push(e)[0] == entries[0]);
        assert(tail_bytes(entries.push(e)) =~= tail_bytes(entries) + seq![COMMA] + entry_bytes(
            e.0,
            e.1,
        ));
    }
}

/// The value of a lowercase hexadecimal digit byte, if it is one.
pub open spec fn nibble_of(c: u8) -> Option<u8> {
    if 48 <= c && c <= 57 {
        Some((c - 48) as u8)
    } else if 97 <= c && c <= 102 {
        Some((c - 87) as u8)
    } else {
        None
    }
}

/// The salt whose sixteen hexadecimal digits stand at `i`, if they do.
pub open spec fn parsed_salt(bytes: Seq<u8>, i: int) -> Option<Seq<u8>> {
    if 0 <= i && i + 16 <= bytes.len() && (forall|j: int|
        0 <= j < 16 ==> #[trigger] nibble_of(bytes[i + j]) is Some) {
        Some(
            Seq::new(
                8,
                |j: int|
                    (nibble_of(bytes[i + 2 * j])->0 * 16 + nibble_of(bytes[i + 2 * j + 1])->0)
                        as u8,
            ),
        )
    } else {
        None
    }
}

/// Whether `bytes` holds `pat` at position `i`.
pub open spec fn has_at(bytes: Seq<u8>, i: int, pat: Seq<u8>) -> bool {
    0 <= i && i + pat.len() <= bytes.len() && (forall|j: int|
        0 <= j < pat.len() ==> bytes[i + j] == pat[j])
}

/// The entry that stands at `i`, with the position just past it.
pub open spec fn parsed_entry(bytes: Seq<u8>, i: int) -> Option<(Seq<u8>, CommitmentStatus, int)> {
    if !(0 <= i && i < bytes.len() && bytes[i] == QUOTE) {
        None
    } else if parsed_salt(bytes, i + 1) is None {
        None
    } else {
        let key = parsed_salt(bytes, i + 1)->0;
        let q = i + 17;
        if !(q + 2 < bytes.len() && bytes[q] == QUOTE && bytes[q + 1] == COLON && bytes[q + 2]
            == QUOTE) {
            None
        } else {
            let t = q + 3;
            if has_at(bytes, t, tag_bytes(CommitmentStatus::Created)) && t + 7 < bytes.len()
                && bytes[t + 7] == QUOTE {
                Some((key, CommitmentStatus::Created, t + 8))
            } else if has_at(bytes, t, tag_bytes(CommitmentStatus::InProgress)) && t + 10
                < bytes.len() && bytes[t + 10] == QUOTE {
                Some((key, CommitmentStatus::InProgress, t + 11))
            } else {
                None
            }
        }
    }
}

/// The entries from `i` to the closing brace that ends the input.
pub open spec fn parsed_entries(bytes: Seq<u8>, i: int) -> Option<
    Seq<(Seq<u8>, CommitmentStatus)>,
>
    decreases bytes.len() - i,
{
    match parsed_entry(bytes, i) {
        None => None,
        Some((key, st, k)) => {
            // an entry always ends past where it starts and inside the input;
            // the guard only keeps the recursion visibly decreasing
            if k <= i || k > bytes.len() {
                None
            } else if k == bytes.len() - 1 && bytes[k] == RBRACE {
                Some(seq![(key, st)])
            } else if k < bytes.len() && bytes[k] == COMMA {
                match parsed_entries(bytes, k + 1) {
                    None => None,
                    Some(rest) => Some(seq![(key, st)] + rest),
                }
            } else {
                None
            }
        },
    }
}

/// The record that the file holds: the empty object, or entries between
/// braces, every salt distinct. Anything else is no record at all.
pub open spec fn parsed_record(bytes: Seq<u8>) -> Option<Seq<(Seq<u8>, CommitmentStatus)>> {
    if bytes.len() >= 2 && bytes[0] == LBRACE {
        if bytes.len() == 2 && bytes[1] == RBRACE {
            Some(Seq::empty())
        } else {
            match parsed_entries(bytes, 1) {
                None => None,
                Some(es) => if keys_distinct(es) {
                    Some(es)
                } else {
                    None
                },
            }
        }
    } else {
        None
    }
}

/// The byte of the lowercase hexadecimal digit for `n`.
fn hex_digit_val(n: u8) -> (r: u8)
    requires
        n < 16,
    ensures
        r == hex_digit(n),
{
    if n < 10 {
        48 + n
    } else {
        87 + n
    }
}

/// The value of a lowercase hexadecimal digit byte, if it is one.
fn nibble(c: u8) -> (r: Option<u8>)
    ensures
        r == nibble_of(c),
{
    if 48 <= c && c <= 57 {
        Some(c - 48)
    } else if 97 <= c && c <= 102 {
        Some(c - 87)
    } else {
        None
    }
}

/// Append one entry's bytes to `out`.
fn push_entry(out: &mut Vec<u8>, salt: &Salt, st: CommitmentStatus)
    ensures
        final(out)@ == old(out)@ + entry_bytes(salt@, st),
{
    out.push(QUOTE);
    let mut j: usize = 0;
    while j < 8
        invariant
            0 <= j <= 8,
            out@ == old(out)@ + seq![QUOTE] + hex_bytes(salt@.take(j as int)),
        decreases 8 - j,
    {
        let b = salt[j];
        proof {
            assert(b / 16 < 16) by (nonlinear_arith);
        }
        out.push(hex_digit_val(b / 16));
        out.push(hex_digit_val(b % 16));
        proof {
            assert(hex_bytes(salt@.take(j as int + 1)) =~= hex_bytes(salt@.take(j as int)).push(
                hex_digit((salt@[j as int] / 16) as u8),
            ).push(hex_digit((salt@[j as int] % 16) as u8)));
            assert(out@ =~= old(out)@ + seq![QUOTE] + hex_bytes(salt@.take(j as int + 1)));
        }
        j += 1;
    }
    proof {
        assert(salt@.take(8) =~= salt@);
    }
    out.push(QUOTE);
    out.push(COLON);
    out.push(QUOTE);
    proof {
        assert(out@ =~= old(out)@ + seq![QUOTE] + hex_bytes(salt@) + seq![QUOTE, COLON, QUOTE]);
    }
    match st {
        CommitmentStatus::InProgress => {
            out.push(73);
            out.push(110);
            out.push(80);
            out.push(114);
            out.push(111);
            out.push(103);
            out.push(114);
            out.push(101);
            out.push(115);
            out.push(115);
            out.push(QUOTE);
            proof {
                assert(out@ =~= old(out)@ + entry_bytes(salt@, st));
            }
        },
        CommitmentStatus::Created => {
            out.push(67);
            out.push(114);
            out.push(101);
            out.push(97);
            out.push(116);
            out.push(101);
            out.push(100);
            out.push(QUOTE);
            proof {
                assert(out@ =~= old(out)@ + entry_bytes(salt@, st));
            }
        },
    }
}

/// Encode a lifecycle record as the metadata file's bytes.
pub fn encode_record(record: &Table<CommitmentStatus>) -> (r: Vec<u8>)
    ensures
        r@ == record_bytes(record.entries_seq()),
{
    let ghost es = record.entries_seq();
    let n = record.len();
    let mut out: Vec<u8> = Vec::new();
    out.push(LBRACE);
    if n == 0 {
        out.push(RBRACE);
        proof {
            assert(out@ =~= record_bytes(es));
        }
        return out;
    }
    let mut i: usize = 0;
    while i < n
        invariant
            0 < n == es.len(),
            0 <= i <= n,
            es == record.entries_seq(),
            i == 0 ==> out@ == seq![LBRACE],
            i > 0 ==> out@ == seq![LBRACE] + entry_bytes(es[0].0, es[0].1) + tail_bytes(
                es.skip(1).take(i - 1),
            ),
        decreases n - i,
    {
        let (s, st) = record.entry_at(i);
        if i > 0 {
            out.push(COMMA);
        }
        push_entry(&mut out, &s, st);
        proof {
            let tl = es.skip(1);
            if i == 0 {
                assert(tl.take(0) =~= Seq::<(Seq<u8>, CommitmentStatus)>::empty());
                assert(out@ =~= seq![LBRACE] + entry_bytes(es[0].0, es[0].1) + tail_bytes(
                    tl.take(0),
                ));
            } else {
                assert(tl.take(i as int) =~= tl.take(i as int - 1).push(tl[i - 1]));
                lemma_tail_snoc(tl.take(i as int - 1), tl[i - 1]);
                assert(tl[i - 1] == es[i as int]);
                assert(out@ =~= seq![LBRACE] + entry_bytes(es[0].0, es[0].1) + tail_bytes(
                    tl.take(i as int),
                ));
            }
        }
        i += 1;
    }
    out.push(RBRACE);
    proof {
        assert(es.skip(1).take(n - 1) =~= es.skip(1));
        assert(out@ =~= record_bytes(es));
    }
    out
}

/// The salt whose sixteen hexadecimal digits stand at `i`, if they do.
fn parse_salt(bytes: &Vec<u8>, i: usize) -> (r: Option<Salt>)
    requires
        i <= bytes@.len(),
    ensures
        match r {
            Some(s) => parsed_salt(bytes@, i as int) == Some(s@),
            None => parsed_salt(bytes@, i as int) is None,
        },
{
    let n = bytes.len();
    if n - i < 16 {
        return None;
    }
    let mut vals: Vec<u8> = Vec::new();
    let mut j: usize = 0;
    while j < 8
        invariant
            0 <= j <= 8,
            n == bytes@.len(),
            i + 16 <= n,
            vals@.len() == j,
            forall|a: int| 0 <= a < 2 * j ==> #[trigger] nibble_of(bytes@[i + a]) is Some,
            forall|a: int|
                0 <= a < j ==> vals@[a] == ((nibble_of(bytes@[i + 2 * a])->0 * 16 + nibble_of(
                    bytes@[i + 2 * a + 1],
                )->0) as u8),
        decreases 8 - j,
    {
        let hi = match nibble(bytes[i + 2 * j]) {
            Some(v) => v,
            None => {
                proof {
                    let a = 2 * (j as int);
                    assert(nibble_of(bytes@[i + a]) is None);
                }
                return None;
            },
        };
        let lo = match nibble(bytes[i + 2 * j + 1]) {
            Some(v) => v,
            None => {
                proof {
                    let a = 2 * (j as int) + 1;
                    assert(nibble_of(bytes@[i + a]) is None);
                }
                return None;
            },
        };
        vals.push(hi * 16 + lo);
        j += 1;
    }
    let s: Salt = [vals[0], vals[1], vals[2], vals[3], vals[4], vals[5], vals[6], vals[7]];
    proof {
        assert(s@ =~= parsed_salt(bytes@, i as int)->0);
    }
    Some(s)
}

/// Whether `bytes` holds `pat` at position `i`.
fn match_at(bytes: &Vec<u8>, i: usize, pat: &Vec<u8>) -> (r: bool)
    requires
        i <= bytes@.len(),
    ensures
        r == has_at(bytes@, i as int, pat@),
{
    let m = bytes.len();
    if m - i < pat.len() {
        return false;
    }
    let n = pat.len();
    let mut j: usize = 0;
    while j < n
        invariant
            0 <= j <= n,
            n == pat@.len(),
            m == bytes@.len(),
            i + n <= m,
            forall|a: int| 0 <= a < j ==> bytes@[i + a] == pat@[a],
        decreases n - j,
    {
        if bytes[i + j] != pat[j] {
            proof {
                assert(!has_at(bytes@, i as int, pat@)) by {
                    if has_at(bytes@, i as int, pat@) {
                        assert(bytes@[i + j as int] == pat@[j as int]);
                    }
                }
            }
            return false;
        }
        j += 1;
    }
    true
}

/// The entry that stands at `i`, with the position just past it.
fn parse_entry(bytes: &Vec<u8>, i: usize) -> (r: Option<(Salt, CommitmentStatus, usize)>)
    requires
        i <= bytes@.len(),
    ensures
        match r {
            Some(e) => parsed_entry(bytes@, i as int) == Some((e.0@, e.1, e.2 as int)) && i < e.2
                <= bytes@.len(),
            None => parsed_entry(bytes@, i as int) is None,
        },
{
    if i >= bytes.len() || bytes[i] != QUOTE {
        return None;
    }
    let s = match parse_salt(bytes, i + 1) {
        Some(s) => s,
        None => {
            return None;
        },
    };
    let q = i + 17;
    if bytes.len() - q < 3 {
        return None;
    }
    if bytes[q] != QUOTE || bytes[q + 1] != COLON || bytes[q + 2] != QUOTE {
        return None;
    }
    let t = q + 3;
    let tag_created: Vec<u8> = vec![67, 114, 101, 97, 116, 101, 100];
    proof {
        assert(tag_created@ =~= tag_bytes(CommitmentStatus::Created));
    }
    if bytes.len() - t >= 8 && match_at(bytes, t, &tag_created) && bytes[t + 7] == QUOTE {
        return Some((s, CommitmentStatus::Created, t + 8));
    }
    let tag_in_progress: Vec<u8> = vec![73, 110, 80, 114, 111, 103, 114, 101, 115, 115];
    proof {
        assert(tag_in_progress@ =~= tag_bytes(CommitmentStatus::InProgress));
    }
    if bytes.len() - t >= 11 && match_at(bytes, t, &tag_in_progress) && bytes[t + 10] == QUOTE {
        return Some((s, CommitmentStatus::InProgress, t + 11));
    }
    None
}

/// The entries from `i` to the closing brace that ends the input.
fn parse_entries(bytes: &Vec<u8>, i: usize) -> (r: Option<Vec<(Salt, CommitmentStatus)>>)
    requires
        i <= bytes@.len(),
    ensures
        match r {
            Some(v) => parsed_entries(bytes@, i as int) == Some(entry_views(v@)),
            None => parsed_entries(bytes@, i as int) is None,
        },
    decreases bytes@.len() - i,
{
    let e = match parse_entry(bytes, i) {
        Some(e) => e,
        None => {
            return None;
        },
    };
    let (s, st, k) = e;
    if k == bytes.len() - 1 && bytes[k] == RBRACE {
        let v: Vec<(Salt, CommitmentStatus)> = vec![(s, st)];
        proof {
            assert(entry_views(v@) =~= seq![(s@, st)]);
        }
        return Some(v);
    }
    if k < bytes.len() && bytes[k] == COMMA {
        match parse_entries(bytes, k + 1) {
            Some(mut rest) => {
                let ghost tail_pairs = rest@;
                rest.insert(0, (s, st));
                proof {
                    assert(rest@ =~= seq![(s, st)] + tail_pairs);
                    assert(entry_views(rest@) =~= seq![(s@, st)] + entry_views(tail_pairs));
                }
                return Some(rest);
            },
            None => {
                return None;
            },
        }
    }
    None
}

/// Decode the metadata file. The record is returned exactly when the bytes
/// are a well-formed record with distinct salts; anything else yields `None`,
/// which the caller treats as an empty record.
pub fn parse_record(bytes: &Vec<u8>) -> (r: Option<Table<CommitmentStatus>>)
    ensures
        match r {
            Some(t) => {
                &&& parsed_record(bytes@) is Some
                &&& t.wf()
                &&& t.entries_seq() == parsed_record(bytes@)->0
                &&& t.as_map() == map_of_entries(parsed_record(bytes@)->0)
            },
            None => parsed_record(bytes@) is None,
        },
{
    if bytes.len() < 2 || bytes[0] != LBRACE {
        return None;
    }
    if bytes.len() == 2 && bytes[1] == RBRACE {
        let t = Table::<CommitmentStatus>::new();
        proof {
            assert(t.as_map() =~= map_of_entries(Seq::<(Seq<u8>, CommitmentStatus)>::empty()));
        }
        return Some(t);
    }
    let v = match parse_entries(bytes, 1) {
        Some(v) => v,
        None => {
            return None;
        },
    };
    let ghost es = entry_views(v@);
    let n = v.len();
    let mut t = Table::<CommitmentStatus>::new();
    let mut idx: usize = 0;
    while idx < n
        invariant
            0 <= idx <= n,
            n == v@.len(),
            es == entry_views(v@),
            parsed_entries(bytes@, 1) == Some(es),
            t.wf(),
            t.entries_seq() == es.take(idx as int),
            t.as_map() == map_of_entries(es.take(idx as int)),
            keys_distinct(es.take(idx as int)),
        decreases n - idx,
    {
        let e = v[idx];
        let dup = t.get(&e.0);
        match dup {
            Some(_) => {
                proof {
                    crate::table::lemma_lookup_some_exists(es.take(idx as int), e.0@);
                    let a = choose|a: int|
                        0 <= a < es.take(idx as int).len() && es.take(idx as int)[a].0 == e.0@;
                    assert(es[a].0 == es[idx as int].0);
                    assert(!keys_distinct(es));
                }
                return None;
            },
            None => {
                proof {
                    assert(!t.as_map().contains_key(e.0@));
                }
                t.set(&e.0, e.1);
                proof {
                    assert(es.take(idx as int + 1) =~= es.take(idx as int).push(es[idx as int]));
                    assert forall|kk: Seq<u8>|
                        lookup(es.take(idx as int + 1), kk) == (if kk == e.0@ {
                            Some(e.1)
                        } else {
                            lookup(es.take(idx as int), kk)
                        }) by {
                        assert(es.take(idx as int + 1).drop_last() =~= es.take(idx as int));
                    }
                    assert(t.as_map() =~= map_of_entries(es.take(idx as int + 1)));
                    assert forall|a: int| 0 <= a < idx implies es[a].0 != es[idx as int].0 by {
                        if es[a].0 == es[idx as int].0 {
                            crate::table::lemma_lookup_present(es.take(idx as int), a);
                        }
                    }
                }
            },
        }
        idx += 1;
    }
    proof {
        assert(es.take(n as int) =~= es);
    }
    Some(t)
}


/// Reading back the digit written for a value below sixteen yields the value.
pub proof fn lemma_nibble_of_hex_digit(n: u8)
    requires
        n < 16,
    ensures
        nibble_of(hex_digit(n)) == Some(n),
{
}

/// Sixteen digits written by `hex_bytes` parse back to the bytes they came
/// from.
pub proof fn lemma_parsed_salt_of_hex(bytes: Seq<u8>, i: int, key: Seq<u8>)
    requires
        key.len() == 8,
        0 <= i,
        i + 16 <= bytes.len(),
        forall|a: int| 0 <= a < 16 ==> bytes[i + a] == hex_bytes(key)[a],
    ensures
        parsed_salt(bytes, i) == Some(key),
{
    assert forall|a: int| 0 <= a < 16 implies #[trigger] nibble_of(bytes[i + a]) is Some by {
        let b = key[a / 2];
        assert(b / 16 < 16) by (nonlinear_arith);
        assert(bytes[i + a] == hex_bytes(key)[a]);
        if a % 2 == 0 {
            lemma_nibble_of_hex_digit((b / 16) as u8);
        } else {
            lemma_nibble_of_hex_digit((b % 16) as u8);
        }
    }
    let parsed = parsed_salt(bytes, i)->0;
    assert forall|j: int| 0 <= j < 8 implies parsed[j] == key[j] by {
        let b = key[j];
        assert(b / 16 < 16) by (nonlinear_arith);
        assert(bytes[i + 2 * j] == hex_bytes(key)[2 * j]);
        assert(bytes[i + 2 * j + 1] == hex_bytes(key)[2 * j + 1]);
        assert(hex_bytes(key)[2 * j] == hex_digit((b / 16) as u8));
        assert(hex_bytes(key)[2 * j + 1] == hex_digit((b % 16) as u8));
        lemma_nibble_of_hex_digit((b / 16) as u8);
        lemma_nibble_of_hex_digit((b % 16) as u8);
        assert(b / 16 * 16 + b % 16 == b) by (nonlinear_arith);
    }
    assert(parsed =~= key);
}

/// An encoded entry parses back to its salt and status, ending just past it.
pub proof fn lemma_parsed_entry_of_encoding(
    bytes: Seq<u8>,
    i: int,
    key: Seq<u8>,
    st: CommitmentStatus,
)
    requires
        key.len() == 8,
        0 <= i,
        i + entry_bytes(key, st).len() <= bytes.len(),
        forall|a: int|
            0 <= a < entry_bytes(key, st).len() ==> bytes[i + a] == entry_bytes(key, st)[a],
    ensures
        parsed_entry(bytes, i) == Some((key, st, i + entry_bytes(key, st).len())),
{
    let eb = entry_bytes(key, st);
    let tag = tag_bytes(st);
    let tlen = tag.len() as int;
    assert(hex_bytes(key).len() == 16);
    assert(eb.len() == 21 + tlen);
    assert(bytes[i + 0] == eb[0]);
    assert(eb[0] == QUOTE);
    assert forall|a: int| 0 <= a < 16 implies bytes[i + 1 + a] == hex_bytes(key)[a] by {
        assert(bytes[i + (1 + a)] == eb[1 + a]);
        assert(eb[1 + a] == hex_bytes(key)[a]);
    }
    lemma_parsed_salt_of_hex(bytes, i + 1, key);
    assert(bytes[i + 17] == eb[17]);
    assert(eb[17] == QUOTE);
    assert(bytes[i + 18] == eb[18]);
    assert(eb[18] == COLON);
    assert(bytes[i + 19] == eb[19]);
    assert(eb[19] == QUOTE);
    assert forall|c: int| 0 <= c < tlen implies bytes[i + 20 + c] == tag[c] by {
        assert(bytes[i + (20 + c)] == eb[20 + c]);
        assert(eb[20 + c] == tag[c]);
    }
    assert(bytes[i + 20 + tlen] == eb[20 + tlen]);
    assert(eb[20 + tlen] == QUOTE);
    let t = i + 20;
    match st {
        CommitmentStatus::Created => {
            assert(has_at(bytes, t, tag));
            assert(bytes[t + 7] == QUOTE);
        },
        CommitmentStatus::InProgress => {
            assert(!has_at(bytes, t, tag_bytes(CommitmentStatus::Created))) by {
                if has_at(bytes, t, tag_bytes(CommitmentStatus::Created)) {
                    assert(bytes[t + 0] == tag_bytes(CommitmentStatus::Created)[0]);
                    assert(bytes[t + 0] == tag[0]);
                }
            }
            assert(has_at(bytes, t, tag));
            assert(bytes[t + 10] == QUOTE);
        },
    }
}

/// An encoded entry run that fills the input up to its closing brace parses
/// back to the entries it came from.
pub proof fn lemma_parsed_entries_of_encoding(
    bytes: Seq<u8>,
    i: int,
    es: Seq<(Seq<u8>, CommitmentStatus)>,
)
    requires
        es.len() > 0,
        forall|j: int| 0 <= j < es.len() ==> (#[trigger] es[j].0).len() == 8,
        0 <= i,
        bytes.len() == i + entry_bytes(es[0].0, es[0].1).len() + tail_bytes(es.skip(1)).len() + 1,
        forall|a: int|
            0 <= a < entry_bytes(es[0].0, es[0].1).len() + tail_bytes(es.skip(1)).len()
                ==> bytes[i + a] == (entry_bytes(es[0].0, es[0].1) + tail_bytes(es.skip(1)))[a],
        bytes[bytes.len() - 1] == RBRACE,
    ensures
        parsed_entries(bytes, i) == Some(es),
    decreases es.len(),
{
    let eb = entry_bytes(es[0].0, es[0].1);
    let tl = tail_bytes(es.skip(1));
    assert(es[0].0.len() == 8);
    assert forall|a: int| 0 <= a < eb.len() implies bytes[i + a] == eb[a] by {
        assert(bytes[i + a] == (eb + tl)[a]);
        assert((eb + tl)[a] == eb[a]);
    }
    lemma_parsed_entry_of_encoding(bytes, i, es[0].0, es[0].1);
    let k = i + eb.len();
    if es.len() == 1 {
        assert(es.skip(1) =~= Seq::<(Seq<u8>, CommitmentStatus)>::empty());
        assert(tl.len() == 0);
        assert(k == bytes.len() - 1);
        assert(bytes[k] == RBRACE);
        assert(parsed_entries(bytes, i) == Some(seq![(es[0].0, es[0].1)]));
        assert(seq![(es[0].0, es[0].1)] =~= es);
    } else {
        let es1 = es.skip(1);
        assert(es1.len() > 0);
        let eb1 = entry_bytes(es1[0].0, es1[0].1);
        let tl1 = tail_bytes(es1.skip(1));
        assert(tl == seq![COMMA] + eb1 + tl1);
        assert(tl.len() == 1 + eb1.len() + tl1.len());
        assert(bytes[k] == COMMA) by {
            assert(bytes[i + eb.len() as int] == (eb + tl)[eb.len() as int]);
            assert((eb + tl)[eb.len() as int] == tl[0]);
            assert(tl[0] == COMMA);
        }
        assert(k != bytes.len() - 1);
        assert(bytes.len() == (k + 1) + eb1.len() + tl1.len() + 1);
        assert forall|a: int|
            0 <= a < eb1.len() + tl1.len() implies bytes[k + 1 + a] == (eb1 + tl1)[a] by {
            assert(bytes[i + (eb.len() + 1 + a)] == (eb + tl)[eb.len() + 1 + a]);
            assert((eb + tl)[eb.len() + 1 + a] == tl[1 + a]);
            assert(tl[1 + a] == (eb1 + tl1)[a]);
        }
        assert forall|j: int| 0 <= j < es1.len() implies (#[trigger] es1[j].0).len() == 8 by {
            assert(es1[j] == es[j + 1]);
            assert(es[j + 1].0.len() == 8);
        }
        lemma_parsed_entries_of_encoding(bytes, k + 1, es1);
        assert(parsed_entries(bytes, i) == Some(seq![(es[0].0, es[0].1)] + es1));
        assert(seq![(es[0].0, es[0].1)] + es1 =~= es);
    }
}

/// The metadata file round-trips: parsing the bytes written for a record with
/// distinct salts yields exactly that record, so a registry reconciled from
/// its own last write sees every commitment as it was recorded.
pub proof fn lemma_record_round_trip(es: Seq<(Seq<u8>, CommitmentStatus)>)
    requires
        keys_distinct(es),
        forall|j: int| 0 <= j < es.len() ==> (#[trigger] es[j].0).len() == 8,
    ensures
        parsed_record(record_bytes(es)) == Some(es),
{
    let bytes = record_bytes(es);
    if es.len() == 0 {
        assert(bytes == seq![LBRACE, RBRACE]);
        assert(bytes.len() == 2 && bytes[0] == LBRACE && bytes[1] == RBRACE);
        assert(Seq::<(Seq<u8>, CommitmentStatus)>::empty() =~= es);
    } else {
        let eb = entry_bytes(es[0].0, es[0].1);
        let tl = tail_bytes(es.skip(1));
        assert(bytes == seq![LBRACE] + eb + tl + seq![RBRACE]);
        assert(bytes.len() == 1 + eb.len() + tl.len() + 1);
        assert(hex_bytes(es[0].0).len() == 16);
        assert(eb.len() >= 21);
        assert(bytes[0] == LBRACE);
        assert(bytes[bytes.len() - 1] == RBRACE);
        assert forall|a: int| 0 <= a < eb.len() + tl.len() implies bytes[1 + a] == (eb + tl)[a] by {
            if a < eb.len() {
                assert(bytes[1 + a] == eb[a]);
            } else {
                assert(bytes[1 + a] == tl[a - eb.len()]);
            }
        }
        lemma_parsed_entries_of_encoding(bytes, 1, es);
        assert(parsed_record(bytes) == Some(es));
    }
}

/// The metadata file of any well-formed lifecycle record round-trips: a
/// registry reconciled from its own last write sees every commitment exactly
/// as it was recorded.
pub proof fn lemma_table_round_trip(record: Table<CommitmentStatus>)
    requires
        record.wf(),
    ensures
        parsed_record(record_bytes(record.entries_seq())) == Some(record.entries_seq()),
{
    record.lemma_keys_len();
    lemma_record_round_trip(record.entries_seq());
}


} // verus!

