//! The names of the engine's files.

use crate::text::{
    all_digits, append_decimal, decimal, decimal_roundtrip, digits_value, number_in, padded,
    padded_roundtrip, padding_is_zeros, parse_number, zero_padded,
};
use vstd::prelude::*;
use vstd::utf8::{encode_utf8, is_ascii_chars, is_ascii_chars_encode_utf8};

verus! {

/// The name of a log generation.
pub open spec fn wal_name_text(seq: u64) -> Seq<char> {
    "wal_"@ + zero_padded(seq as nat, 6) + ".wal"@
}

/// The name of a table.
pub open spec fn table_name_text(level: u32, seq: u64) -> Seq<char> {
    "L"@ + decimal(level as nat) + "_"@ + zero_padded(seq as nat, 6) + ".sst"@
}

/// The sequence number in the name of a log generation; `None` if the name is
/// not that of one.
pub open spec fn wal_seq_of(name: Seq<char>) -> Option<u64> {
    let n = name.len() as int;
    if n >= 8 && name.take(4) == "wal_"@ && name.skip(n - 4) == ".wal"@ {
        number_in(name.subrange(4, n - 4))
    } else {
        None
    }
}

/// The name of the log generation `seq`.
pub fn wal_name(seq: u64) -> (name: String)
    ensures
        name@ == wal_name_text(seq),
{
    let mut s: String = String::from_str("wal_");
    s.append(padded(seq, 6).as_str());
    s.append(".wal");
    s
}

/// The name of the table `seq` at `level`.
pub fn table_name(level: u32, seq: u64) -> (name: String)
    ensures
        name@ == table_name_text(level, seq),
{
    let mut s: String = String::from_str("L");
    append_decimal(&mut s, level as u64);
    s.append("_");
    s.append(padded(seq, 6).as_str());
    s.append(".sst");
    s
}

/// Whether the characters of `s` from `start` on begin with the four of `part`.
fn four_at(s: &str, start: usize, part: &str) -> (same: bool)
    requires
        start + 4 <= s@.len(),
        start + 4 <= usize::MAX,
        part@.len() == 4,
    ensures
        same <==> s@.subrange(start as int, start + 4) == part@,
{
    let mut i: usize = 0;
    while i < 4
        invariant
            i <= 4,
            start + 4 <= s@.len(),
            part@.len() == 4,
            start + 4 <= usize::MAX,
            forall|j: int| 0 <= j < i ==> s@[start + j] == part@[j],
        decreases 4 - i,
    {
        if s.get_char(start + i) != part.get_char(i) {
            assert(s@.subrange(start as int, start + 4)[i as int] != part@[i as int]);
            return false;
        }
        i = i + 1;
    }
    proof {
        assert(s@.subrange(start as int, start + 4) =~= part@);
    }
    true
}

/// The sequence number in `wal_<seq>.wal`; `None` if the name is not that of a
/// log generation.
pub fn parse_wal_name(name: &str) -> (seq: Option<u64>)
    ensures
        seq == wal_seq_of(name@),
{
    proof {
        reveal_strlit("wal_");
        reveal_strlit(".wal");
    }
    let n: usize = name.unicode_len();
    if n < 8 {
        return None;
    }
    proof {
        assert(name@.take(4) =~= name@.subrange(0, 4));
        assert(name@.skip(n - 4) =~= name@.subrange(n - 4, n as int));
    }
    if !four_at(name, 0, "wal_") || !four_at(name, n - 4, ".wal") {
        return None;
    }
    parse_number(name, 4, n - 4)
}

/// The name of a log generation is read back as its sequence number.
pub proof fn wal_name_roundtrip(seq: u64)
    ensures
        wal_seq_of(wal_name_text(seq)) == Some(seq),
{
    reveal_strlit("wal_");
    reveal_strlit(".wal");
    let name = wal_name_text(seq);
    let digits = zero_padded(seq as nat, 6);
    padded_roundtrip(seq, 6);
    let n = name.len() as int;
    assert(name.take(4) =~= "wal_"@);
    assert(name.skip(n - 4) =~= ".wal"@);
    assert(name.subrange(4, n - 4) =~= digits);
}

/// The name of a log is "wal_", its number in at least six digits, and ".wal"; the name
/// of a table is "L", its level, "_", its number in at least six digits, and ".sst".
pub proof fn names_spelled_out(level: u32, seq: u64)
    ensures
        wal_name_text(seq).len() >= 14,
        wal_name_text(seq)[0] == 'w' && wal_name_text(seq)[1] == 'a' && wal_name_text(seq)[2]
            == 'l' && wal_name_text(seq)[3] == '_',
        wal_name_text(seq).skip(4).drop_last().drop_last().drop_last().drop_last() == zero_padded(
            seq as nat,
            6,
        ),
        wal_name_text(seq).skip(wal_name_text(seq).len() - 4) == seq!['.', 'w', 'a', 'l'],
        table_name_text(level, seq) == seq!['L'] + decimal(level as nat) + seq!['_'] + zero_padded(
            seq as nat,
            6,
        ) + seq!['.', 's', 's', 't'],
{
    reveal_strlit("wal_");
    reveal_strlit(".wal");
    reveal_strlit("L");
    reveal_strlit("_");
    reveal_strlit(".sst");
    padding_is_zeros(seq as nat, 6);
    let name = wal_name_text(seq);
    assert(name.skip(4).drop_last().drop_last().drop_last().drop_last() =~= zero_padded(
        seq as nat,
        6,
    ));
    assert(name.skip(name.len() - 4) =~= seq!['.', 'w', 'a', 'l']);
    assert("L"@ =~= seq!['L']);
    assert("_"@ =~= seq!['_']);
    assert(".sst"@ =~= seq!['.', 's', 's', 't']);
}

/// A name is that of a log generation exactly if it is "wal_", digits of a number of at
/// most 64 bits, and ".wal".
pub proof fn log_names_known(name: Seq<char>)
    ensures
        wal_seq_of(name) is Some <==> exists|digits: Seq<char>|
            {
                &&& name == seq!['w', 'a', 'l', '_'] + digits + seq!['.', 'w', 'a', 'l']
                &&& digits.len() > 0
                &&& #[trigger] all_digits(digits)
                &&& digits_value(digits) <= u64::MAX
            },
        wal_seq_of(name) matches Some(seq) ==> seq == digits_value(
            name.subrange(4, name.len() - 4),
        ),
{
    reveal_strlit("wal_");
    reveal_strlit(".wal");
    assert("wal_"@ =~= seq!['w', 'a', 'l', '_']);
    assert(".wal"@ =~= seq!['.', 'w', 'a', 'l']);
    let n = name.len() as int;
    if wal_seq_of(name) is Some {
        let digits = name.subrange(4, n - 4);
        assert(name =~= name.take(4) + digits + name.skip(n - 4));
        assert(all_digits(digits));
    }
    if exists|digits: Seq<char>|
        {
            &&& name == seq!['w', 'a', 'l', '_'] + digits + seq!['.', 'w', 'a', 'l']
            &&& digits.len() > 0
            &&& #[trigger] all_digits(digits)
            &&& digits_value(digits) <= u64::MAX
        } {
        let digits = choose|digits: Seq<char>|
            {
                &&& name == seq!['w', 'a', 'l', '_'] + digits + seq!['.', 'w', 'a', 'l']
                &&& digits.len() > 0
                &&& #[trigger] all_digits(digits)
                &&& digits_value(digits) <= u64::MAX
            };
        assert(name.take(4) =~= "wal_"@);
        assert(name.skip(n - 4) =~= ".wal"@);
        assert(name.subrange(4, n - 4) =~= digits);
    }
}

/// Tables of the same level have different names if their sequence numbers
/// differ, and no table has the name of a log generation.
pub proof fn table_names_differ(level: u32, a: u64, b: u64)
    requires
        a != b,
    ensures
        table_name_text(level, a) != table_name_text(level, b),
        wal_seq_of(table_name_text(level, a)) is None,
{
    reveal_strlit("L");
    reveal_strlit("_");
    reveal_strlit(".sst");
    reveal_strlit("wal_");
    let front = "L"@ + decimal(level as nat) + "_"@;
    let name_a = table_name_text(level, a);
    let name_b = table_name_text(level, b);
    padded_roundtrip(a, 6);
    padded_roundtrip(b, 6);
    assert(name_a.subrange(front.len() as int, name_a.len() - 4) =~= zero_padded(a as nat, 6));
    assert(name_b.subrange(front.len() as int, name_b.len() - 4) =~= zero_padded(b as nat, 6));
    assert(name_a[0] == 'L');
    if name_a.len() >= 8 {
        assert(name_a.take(4)[0] == 'L');
        assert("wal_"@[0] == 'w');
    }
}

spec fn ten_to(width: nat) -> nat
    decreases width,
{
    if width == 0 {
        1
    } else {
        10 * ten_to((width - 1) as nat)
    }
}

proof fn decimal_short(n: nat, width: nat)
    requires
        n < ten_to(width),
        width >= 1,
    ensures
        decimal(n).len() <= width,
    decreases width,
{
    if n >= 10 {
        if width == 1 {
            reveal_with_fuel(ten_to, 2);
        }
        decimal_short(n / 10, (width - 1) as nat);
    }
}

/// A table's name is short, and plain ASCII.
pub proof fn table_name_short(level: u32, seq: u64)
    ensures
        encode_utf8(table_name_text(level, seq)).len() <= 64,
{
    reveal_strlit("L");
    reveal_strlit("_");
    reveal_strlit(".sst");
    reveal_with_fuel(ten_to, 21);
    decimal_short(level as nat, 20);
    decimal_short(seq as nat, 20);
    decimal_roundtrip(level as nat);
    padded_roundtrip(seq, 6);
    let name = table_name_text(level, seq);
    assert(is_ascii_chars(name)) by {
        assert forall|i: int| 0 <= i < name.len() implies 0 <= #[trigger] name[i] <= 127 by {
            let number = decimal(level as nat);
            let digits = zero_padded(seq as nat, 6);
            if 1 <= i < 1 + number.len() {
                assert(name[i] == number[i - 1]);
            } else if 2 + number.len() <= i < 2 + number.len() + digits.len() {
                assert(name[i] == digits[i - 2 - number.len()]);
            }
        }
    }
    is_ascii_chars_encode_utf8(name);
}

/// Whether `out` lists the log generations among `names`, each with its
/// position there, by ascending sequence number and position.
pub open spec fn lists_generations(names: Seq<Seq<char>>, out: Seq<(u64, usize)>) -> bool {
    &&& forall|i: int, j: int|
        #![trigger out[i], out[j]]
        0 <= i < j < out.len() ==> out[i].0 < out[j].0 || (out[i].0 == out[j].0 && out[i].1
            < out[j].1)
    &&& forall|i: int|
        0 <= i < out.len() ==> (#[trigger] out[i]).1 < names.len() && wal_seq_of(
            names[out[i].1 as int],
        ) == Some(out[i].0)
    &&& forall|k: int|
        0 <= k < names.len() && wal_seq_of(#[trigger] names[k]) is Some ==> exists|i: int|
            0 <= i < out.len() && (#[trigger] out[i]).1 == k
}

/// A listing of the log generations of a directory has every name that is one of a log,
/// once, and no other; an older generation never comes after a newer one.
pub proof fn generations_are_complete(names: Seq<Seq<char>>, out: Seq<(u64, usize)>, k: int)
    requires
        lists_generations(names, out),
        0 <= k < names.len() <= usize::MAX,
    ensures
        match wal_seq_of(names[k]) {
            Some(seq) => out.contains((seq, k as usize)),
            None => forall|i: int| 0 <= i < out.len() ==> (#[trigger] out[i]).1 != k,
        },
        forall|i: int, j: int|
            0 <= i < j < out.len() ==> #[trigger] out[i].0 <= #[trigger] out[j].0,
        forall|i: int, j: int| 0 <= i < j < out.len() ==> #[trigger] out[i] != #[trigger] out[j],
{
    if let Some(seq) = wal_seq_of(names[k]) {
        let i = choose|i: int| 0 <= i < out.len() && (#[trigger] out[i]).1 == k;
        assert(out[i] == (seq, k as usize));
    }
}

pub open spec fn name_views(names: Seq<String>) -> Seq<Seq<char>> {
    Seq::new(names.len(), |i: int| names[i]@)
}

/// The log generations among the names of a directory, oldest first: the
/// sequence number of each, and the position of its name.
pub fn wal_generations(names: &[String]) -> (out: Vec<(u64, usize)>)
    ensures
        lists_generations(name_views(names@), out@),
{
    let ghost all = name_views(names@);
    let mut out: Vec<(u64, usize)> = Vec::new();
    let mut k: usize = 0;
    while k < names.len()
        invariant
            k <= names@.len(),
            all == name_views(names@),
            lists_generations(all.take(k as int), out@),
        decreases names.len() - k,
    {
        let ghost before = out@;
        let ghost seen = all.take(k as int);
        let ghost next = all.take(k + 1);
        assert(all[k as int] == names@[k as int]@);
        assert forall|m: int| 0 <= m < k implies #[trigger] next[m] == seen[m] by {}
        if let Some(seq) = parse_wal_name(names[k].as_str()) {
            let mut pos: usize = out.len();
            while pos > 0 && out[pos - 1].0 > seq
                invariant
                    pos <= out@.len(),
                    out@ == before,
                    forall|i: int| pos <= i < before.len() ==> (#[trigger] before[i]).0 > seq,
                decreases pos,
            {
                pos = pos - 1;
            }
            out.insert(pos, (seq, k));
            proof {
                generation_added(seen, next, before, pos as int, seq, k);
            }
        } else {
            proof {
                assert forall|i: int| 0 <= i < before.len() implies (#[trigger] before[i]).1
                    < next.len() && wal_seq_of(next[before[i].1 as int]) == Some(before[i].0) by {
                    assert(next[before[i].1 as int] == seen[before[i].1 as int]);
                }
                assert forall|m: int|
                    0 <= m < next.len() && wal_seq_of(#[trigger] next[m]) is Some implies exists|
                    i: int,
                | 0 <= i < before.len() && (#[trigger] before[i]).1 == m by {
                    assert(m < k);
                    assert(next[m] == seen[m]);
                }
            }
        }
        k = k + 1;
    }
    proof {
        assert(all.take(k as int) =~= all);
    }
    out
}

proof fn generation_added(
    seen: Seq<Seq<char>>,
    next: Seq<Seq<char>>,
    before: Seq<(u64, usize)>,
    pos: int,
    seq: u64,
    k: usize,
)
    requires
        lists_generations(seen, before),
        seen.len() == k,
        next.len() == k + 1,
        forall|m: int| 0 <= m < k ==> #[trigger] next[m] == seen[m],
        wal_seq_of(next[k as int]) == Some(seq),
        0 <= pos <= before.len(),
        pos > 0 ==> before[pos - 1].0 <= seq,
        forall|i: int| pos <= i < before.len() ==> (#[trigger] before[i]).0 > seq,
    ensures
        lists_generations(next, before.insert(pos, (seq, k))),
{
    let after = before.insert(pos, (seq, k));
    assert forall|i: int| 0 <= i < before.len() implies (#[trigger] before[i]).1 < k by {}
    assert forall|i: int, j: int| 0 <= i < j < after.len() implies after[i].0 < after[j].0 || (
    after[i].0 == after[j].0 && after[i].1 < after[j].1) by {
        if i < pos {
            assert(after[i] == before[i]);
            if i < pos - 1 {
                assert(before[i].0 <= before[pos - 1].0);
            }
        } else if i > pos {
            assert(after[i] == before[i - 1]);
        }
        if j < pos {
            assert(after[j] == before[j]);
        } else if j > pos {
            assert(after[j] == before[j - 1]);
        }
    }
    assert forall|i: int| 0 <= i < after.len() implies (#[trigger] after[i]).1 < next.len()
        && wal_seq_of(next[after[i].1 as int]) == Some(after[i].0) by {
        if i < pos {
            assert(after[i] == before[i]);
            assert(next[before[i].1 as int] == seen[before[i].1 as int]);
        } else if i > pos {
            assert(after[i] == before[i - 1]);
            assert(next[before[i - 1].1 as int] == seen[before[i - 1].1 as int]);
        }
    }
    assert forall|m: int|
        0 <= m < next.len() && wal_seq_of(#[trigger] next[m]) is Some implies exists|i: int|
        0 <= i < after.len() && (#[trigger] after[i]).1 == m by {
        if m == k {
            assert(after[pos].1 == m);
        } else {
            assert(next[m] == seen[m]);
            let i = choose|i: int| 0 <= i < before.len() && (#[trigger] before[i]).1 == m;
            if i < pos {
                assert(after[i] == before[i]);
            } else {
                assert(after[i + 1] == before[i]);
            }
        }
    }
}

} // verus!
