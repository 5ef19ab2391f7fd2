//! The k-way merge at the heart of every compaction: several sorted runs become
//! one ascending run in which each key occurs once and none is deleted.

use crate::error::Result;
use crate::model::{
    ascending, contents_facts, contents_of, live, record_view, record_views, Cell, Contents,
    Record, RecordView,
};
use crate::order::{key_order, lex_facts, lex_lt, KeyOrder};
use crate::utils;
use vstd::prelude::*;

verus! {

/// One sorted run: the records of one table. `seq` is the table's sequence
/// number; a higher one is newer and wins where keys collide.
pub struct Run {
    pub seq: u64,
    pub records: Vec<Record>,
}

pub open spec fn run_seqs(runs: Seq<Run>) -> Seq<u64> {
    Seq::new(runs.len(), |i: int| runs[i].seq)
}

pub open spec fn run_records(runs: Seq<Run>) -> Seq<Seq<RecordView>> {
    Seq::new(runs.len(), |i: int| record_views(runs[i].records@))
}

/// The smallest key at the front of any run; `None` if all are used up.
pub open spec fn least_key(tails: Seq<Seq<RecordView>>) -> Option<Seq<u8>>
    decreases tails.len(),
{
    if tails.len() == 0 {
        None
    } else {
        let before = least_key(tails.drop_last());
        if tails.last().len() == 0 {
            before
        } else {
            match before {
                Some(k) => if lex_lt(tails.last()[0].0, k) {
                    Some(tails.last()[0].0)
                } else {
                    Some(k)
                },
                None => Some(tails.last()[0].0),
            }
        }
    }
}

/// Whether `key` is at the front of a run.
pub open spec fn heads(tail: Seq<RecordView>, key: Seq<u8>) -> bool {
    tail.len() > 0 && tail[0].0 == key
}

/// The newest run that has `key` at its front; the first such run if two have
/// the same sequence number.
pub open spec fn newest_head(
    seqs: Seq<u64>,
    tails: Seq<Seq<RecordView>>,
    key: Seq<u8>,
) -> Option<int>
    decreases tails.len(),
{
    if tails.len() == 0 {
        None
    } else {
        let last = tails.len() - 1;
        let before = newest_head(seqs, tails.drop_last(), key);
        if !heads(tails[last], key) {
            before
        } else {
            match before {
                Some(w) => if seqs[last] > seqs[w] {
                    Some(last)
                } else {
                    Some(w)
                },
                None => Some(last),
            }
        }
    }
}

/// The runs after every one of them has given up `key` from its front.
pub open spec fn without_head(tails: Seq<Seq<RecordView>>, key: Seq<u8>) -> Seq<Seq<RecordView>> {
    Seq::new(
        tails.len(),
        |i: int|
            if heads(tails[i], key) {
                tails[i].skip(1)
            } else {
                tails[i]
            },
    )
}

/// How many records are left in all runs.
pub open spec fn total_len(tails: Seq<Seq<RecordView>>) -> nat
    decreases tails.len(),
{
    if tails.len() == 0 {
        0
    } else {
        total_len(tails.drop_last()) + tails.last().len()
    }
}

/// The merge: the smallest front key is taken from every run that has it, the
/// newest run's record decides, and a tombstone drops the key.
pub open spec fn merged(seqs: Seq<u64>, tails: Seq<Seq<RecordView>>) -> Seq<RecordView>
    decreases total_len(tails),
{
    match least_key(tails) {
        None => Seq::empty(),
        Some(k) => {
            proof {
                least_key_facts(tails);
                without_head_shrinks(tails, k);
            }
            let w = tails[newest_head(seqs, tails, k).unwrap()][0];
            let rest = merged(seqs, without_head(tails, k));
            if w.2 {
                rest
            } else {
                seq![(w.0, w.1, false)] + rest
            }
        },
    }
}

/// What the smallest front key is: some run has it in front, and none has a
/// smaller one.
pub proof fn least_key_facts(tails: Seq<Seq<RecordView>>)
    ensures
        match least_key(tails) {
            None => forall|i: int| 0 <= i < tails.len() ==> (#[trigger] tails[i]).len() == 0,
            Some(k) => {
                &&& exists|i: int| 0 <= i < tails.len() && #[trigger] heads(tails[i], k)
                &&& forall|i: int|
                    0 <= i < tails.len() && (#[trigger] tails[i]).len() > 0 ==> !lex_lt(
                        tails[i][0].0,
                        k,
                    )
            },
        },
    decreases tails.len(),
{
    if tails.len() > 0 {
        let rest = tails.drop_last();
        let last = tails.len() - 1;
        least_key_facts(rest);
        lex_facts();
        assert forall|i: int| 0 <= i < last implies #[trigger] tails[i] == rest[i] by {}
        if let Some(k) = least_key(tails) {
            if least_key(rest) == Some(k) {
                let i = choose|i: int| 0 <= i < rest.len() && #[trigger] heads(rest[i], k);
                assert(heads(tails[i], k));
            } else {
                assert(heads(tails[last], k));
            }
        }
    }
}

/// Giving up a front key leaves fewer records.
pub proof fn without_head_shrinks(tails: Seq<Seq<RecordView>>, key: Seq<u8>)
    ensures
        total_len(without_head(tails, key)) <= total_len(tails),
        (exists|i: int| 0 <= i < tails.len() && #[trigger] heads(tails[i], key)) ==> total_len(
            without_head(tails, key),
        ) < total_len(tails),
    decreases tails.len(),
{
    if tails.len() > 0 {
        let rest = tails.drop_last();
        without_head_shrinks(rest, key);
        assert(without_head(tails, key).drop_last() =~= without_head(rest, key));
        if exists|i: int| 0 <= i < tails.len() && #[trigger] heads(tails[i], key) {
            let i = choose|i: int| 0 <= i < tails.len() && #[trigger] heads(tails[i], key);
            if i < rest.len() {
                assert(heads(rest[i], key));
            }
        }
    }
}

proof fn newest_head_facts(seqs: Seq<u64>, tails: Seq<Seq<RecordView>>, key: Seq<u8>)
    ensures
        match newest_head(seqs, tails, key) {
            None => forall|i: int| 0 <= i < tails.len() ==> !#[trigger] heads(tails[i], key),
            Some(w) => {
                &&& 0 <= w < tails.len()
                &&& heads(tails[w], key)
                &&& forall|i: int|
                    0 <= i < tails.len() && #[trigger] heads(tails[i], key) ==> seqs[i] < seqs[w]
                        || (seqs[i] == seqs[w] && w <= i)
            },
        },
    decreases tails.len(),
{
    if tails.len() > 0 {
        let rest = tails.drop_last();
        newest_head_facts(seqs, rest, key);
        assert forall|i: int| 0 <= i < rest.len() implies #[trigger] tails[i] == rest[i] by {}
        if newest_head(seqs, tails, key) is None {
            assert forall|i: int| 0 <= i < tails.len() implies !#[trigger] heads(
                tails[i],
                key,
            ) by {
                if i < rest.len() {
                    assert(!heads(rest[i], key));
                }
            }
        }
    }
}

/// Whether the first `count` runs have `tails` left after their cursors.
spec fn left_at(
    all: Seq<Seq<RecordView>>,
    tails: Seq<Seq<RecordView>>,
    cursor: Seq<usize>,
    count: int,
) -> bool {
    forall|i: int|
        #![trigger tails[i]]
        #![trigger cursor[i]]
        0 <= i < count ==> tails[i] == all[i].skip(cursor[i] as int) && cursor[i] <= all[i].len()
}

/// Merges runs. For a key in several runs the record of the newest run wins; if
/// that is a tombstone the key is dropped, since nothing older survives outside
/// the merged runs. Empty runs, and no runs at all, are fine.
pub fn merge_runs(runs: &[Run]) -> (r: Result<Vec<Record>>)
    ensures
        r matches Ok(out) && record_views(out@) == merged(run_seqs(runs@), run_records(runs@)),
{
    let ghost seqs = run_seqs(runs@);
    let ghost all = run_records(runs@);
    let count: usize = runs.len();
    let mut cursor: Vec<usize> = Vec::new();
    while cursor.len() < count
        invariant
            cursor@.len() <= count,
            forall|i: int| 0 <= i < cursor@.len() ==> cursor@[i] == 0,
        decreases count - cursor.len(),
    {
        cursor.push(0);
    }
    let mut out: Vec<Record> = Vec::new();
    let ghost mut tails = all;
    proof {
        assert forall|i: int| 0 <= i < count implies #[trigger] all[i].skip(0) == all[i] by {
            assert(all[i].skip(0) =~= all[i]);
        }
        assert(record_views(out@) + merged(seqs, all) =~= merged(seqs, all));
    }
    loop
        invariant
            count == runs@.len(),
            cursor@.len() == count,
            seqs == run_seqs(runs@),
            all == run_records(runs@),
            tails.len() == count,
            left_at(all, tails, cursor@, count as int),
            record_views(out@) + merged(seqs, tails) == merged(seqs, all),
        ensures
            record_views(out@) == merged(seqs, all),
        decreases total_len(tails),
    {
        let mut least: Option<usize> = None;
        let mut i: usize = 0;
        while i < count
            invariant
                i <= count,
                count == runs@.len(),
                cursor@.len() == count,
                all == run_records(runs@),
                tails.len() == count,
                left_at(all, tails, cursor@, count as int),
                match least {
                    Some(m) => m < count && tails[m as int].len() > 0 && least_key(
                        tails.take(i as int),
                    ) == Some(tails[m as int][0].0),
                    None => least_key(tails.take(i as int)) is None,
                },
            decreases count - i,
        {
            proof {
                assert(tails.take(i + 1).drop_last() =~= tails.take(i as int));
                assert(tails.take(i + 1).last() == tails[i as int]);
                assert(all[i as int].len() == runs@[i as int].records@.len());
            }
            if cursor[i] < runs[i].records.len() {
                assert(tails[i as int][0] == record_view(
                    runs@[i as int].records@[cursor@[i as int] as int],
                ));
                match least {
                    None => {
                        least = Some(i);
                    },
                    Some(m) => {
                        assert(tails[m as int] == all[m as int].skip(cursor@[m as int] as int));
                        assert(tails[m as int][0] == record_view(
                            runs@[m as int].records@[cursor@[m as int] as int],
                        ));
                        match key_order(
                            runs[i].records[cursor[i]].0.as_slice(),
                            runs[m].records[cursor[m]].0.as_slice(),
                        ) {
                            KeyOrder::Less => {
                                least = Some(i);
                            },
                            _ => {},
                        }
                    },
                }
            }
            i = i + 1;
        }
        proof {
            assert(tails.take(count as int) =~= tails);
        }
        let first: usize = match least {
            Some(m) => m,
            None => {
                proof {
                    assert(record_views(out@) + Seq::<RecordView>::empty() =~= record_views(out@));
                }
                break;
            },
        };
        assert(tails[first as int] == all[first as int].skip(cursor@[first as int] as int));
        let min_key: &[u8] = runs[first].records[cursor[first]].0.as_slice();
        assert(tails[first as int][0] == record_view(
            runs@[first as int].records@[cursor@[first as int] as int],
        ));
        let ghost before = cursor@;
        let ghost next = without_head(tails, min_key@);
        let mut winner: Option<(usize, usize)> = None;
        let mut j: usize = 0;
        while j < count
            invariant
                j <= count,
                count == runs@.len(),
                cursor@.len() == count,
                before.len() == count,
                seqs == run_seqs(runs@),
                all == run_records(runs@),
                tails.len() == count,
                next == without_head(tails, min_key@),
                left_at(all, tails, before, count as int),
                left_at(all, next, cursor@, j as int),
                forall|m: int| j <= m < count ==> #[trigger] cursor@[m] == before[m],
                match winner {
                    Some((w, at)) => w < count && at < runs@[w as int].records@.len() && at
                        == before[w as int] && newest_head(
                        seqs,
                        tails.take(j as int),
                        min_key@,
                    ) == Some(w as int),
                    None => newest_head(seqs, tails.take(j as int), min_key@) is None,
                },
            decreases count - j,
        {
            let at: usize = cursor[j];
            let ghost moved = cursor@;
            proof {
                assert(tails.take(j + 1).drop_last() =~= tails.take(j as int));
                assert(tails.take(j + 1).last() == tails[j as int]);
                assert(all[j as int].len() == runs@[j as int].records@.len());
                assert(at == before[j as int]);
                if at < all[j as int].len() {
                    assert(tails[j as int][0] == record_view(
                        runs@[j as int].records@[at as int],
                    ));
                    assert(tails[j as int].skip(1) =~= all[j as int].skip(at + 1));
                }
                newest_head_facts(seqs, tails.take(j as int), min_key@);
            }
            if at < runs[j].records.len() {
                match key_order(runs[j].records[at].0.as_slice(), min_key) {
                    KeyOrder::Equal => {
                        cursor.set(j, at + 1);
                        match winner {
                            None => {
                                winner = Some((j, at));
                            },
                            Some((w, _)) => {
                                if runs[j].seq > runs[w].seq {
                                    winner = Some((j, at));
                                }
                            },
                        }
                    },
                    _ => {},
                }
            }
            proof {
                assert forall|m: int| 0 <= m < j + 1 implies next[m] == all[m].skip(
                    cursor@[m] as int,
                ) && cursor@[m] <= all[m].len() by {
                    if m < j {
                        assert(cursor@[m] == moved[m]);
                    }
                }
            }
            j = j + 1;
        }
        proof {
            assert(tails.take(count as int) =~= tails);
            least_key_facts(tails);
            newest_head_facts(seqs, tails, min_key@);
            without_head_shrinks(tails, min_key@);
            assert(heads(tails[first as int], min_key@));
        }
        if let Some((w, at)) = winner {
            let record = &runs[w].records[at];
            assert(tails[w as int] == all[w as int].skip(at as int));
            assert(tails[w as int][0] == record_view(*record));
            let ghost held = record_views(out@);
            if !record.2 {
                let one: Record = (
                    utils::copy_bytes(record.0.as_slice()),
                    utils::copy_bytes(record.1.as_slice()),
                    false,
                );
                out.push(one);
                assert(record_views(out@) =~= held.push(record_view(one)));
            }
            assert(record_views(out@) + merged(seqs, next) =~= held + merged(seqs, tails));
        }
        proof {
            tails = next;
        }
    }
    Ok(out)
}

/// The newest of the marked positions; the first such if two have the same
/// sequence number.
pub open spec fn newest_of(seqs: Seq<u64>, marked: Seq<bool>) -> Option<int>
    decreases marked.len(),
{
    if marked.len() == 0 {
        None
    } else {
        let last = marked.len() - 1;
        let before = newest_of(seqs, marked.drop_last());
        if !marked[last] {
            before
        } else {
            match before {
                Some(w) => if seqs[last] > seqs[w] {
                    Some(last)
                } else {
                    Some(w)
                },
                None => Some(last),
            }
        }
    }
}

/// Which tables hold `key`.
pub open spec fn holders(tables: Seq<Contents>, key: Seq<u8>) -> Seq<bool> {
    Seq::new(tables.len(), |i: int| tables[i].contains_key(key))
}

/// The state of `key` in the newest of the tables that hold it.
pub open spec fn newest_cell(seqs: Seq<u64>, tables: Seq<Contents>, key: Seq<u8>) -> Option<
    Cell,
> {
    match newest_of(seqs, holders(tables, key)) {
        Some(w) => Some(tables[w][key]),
        None => None,
    }
}

/// The value of `key` if it is live in the newest of the tables that hold it.
pub open spec fn newest_live(seqs: Seq<u64>, tables: Seq<Contents>, key: Seq<u8>) -> Option<
    Seq<u8>,
> {
    match newest_cell(seqs, tables, key) {
        Some(c) => if c.1 {
            None
        } else {
            Some(c.0)
        },
        None => None,
    }
}

/// What each run holds.
pub open spec fn run_contents(runs: Seq<Seq<RecordView>>) -> Seq<Contents> {
    Seq::new(runs.len(), |i: int| contents_of(runs[i]))
}

/// What the newest marked position is: marked, no marked one is newer, and none
/// before it is as new.
pub proof fn newest_of_facts(seqs: Seq<u64>, marked: Seq<bool>)
    ensures
        match newest_of(seqs, marked) {
            None => forall|i: int| 0 <= i < marked.len() ==> !#[trigger] marked[i],
            Some(w) => {
                &&& 0 <= w < marked.len()
                &&& marked[w]
                &&& forall|i: int|
                    0 <= i < marked.len() && #[trigger] marked[i] ==> seqs[i] <= seqs[w]
                &&& forall|i: int| 0 <= i < w && #[trigger] marked[i] ==> seqs[i] < seqs[w]
            },
        },
    decreases marked.len(),
{
    if marked.len() > 0 {
        let rest = marked.drop_last();
        newest_of_facts(seqs, rest);
        assert forall|i: int| 0 <= i < rest.len() implies #[trigger] marked[i] == rest[i] by {}
    }
}

proof fn newest_head_is(seqs: Seq<u64>, tails: Seq<Seq<RecordView>>, key: Seq<u8>)
    ensures
        newest_head(seqs, tails, key) == newest_of(
            seqs,
            Seq::new(tails.len(), |i: int| heads(tails[i], key)),
        ),
    decreases tails.len(),
{
    if tails.len() > 0 {
        newest_head_is(seqs, tails.drop_last(), key);
        assert(Seq::new(tails.len(), |i: int| heads(tails[i], key)).drop_last() =~= Seq::new(
            tails.drop_last().len(),
            |i: int| heads(tails.drop_last()[i], key),
        ));
    }
}

/// A run that has given up its front key holds what it held otherwise.
proof fn tail_contents(rs: Seq<RecordView>)
    requires
        ascending(rs),
        rs.len() > 0,
    ensures
        ascending(rs.skip(1)),
        contents_of(rs.skip(1)) == contents_of(rs).remove(rs[0].0),
{
    let rest = rs.skip(1);
    lex_facts();
    assert forall|i: int, j: int| 0 <= i < j < rest.len() implies lex_lt(rest[i].0, rest[j].0) by {
        assert(rest[i] == rs[i + 1] && rest[j] == rs[j + 1]);
    }
    contents_facts(rs);
    contents_facts(rest);
    assert forall|k: Seq<u8>| #[trigger] contents_of(rest).contains_key(k) implies k != rs[0].0
        && contents_of(rs).contains_key(k) && contents_of(rs)[k] == contents_of(rest)[k] by {
        let i = choose|i: int| 0 <= i < rest.len() && #[trigger] rest[i].0 == k;
        assert(rs[i + 1] == rest[i]);
        assert(lex_lt(rs[0].0, rs[i + 1].0));
    }
    assert forall|k: Seq<u8>| k != rs[0].0 && #[trigger] contents_of(rs).contains_key(
        k,
    ) implies contents_of(rest).contains_key(k) by {
        let i = choose|i: int| 0 <= i < rs.len() && #[trigger] rs[i].0 == k;
        assert(rest[i - 1] == rs[i]);
    }
    assert(contents_of(rest) =~= contents_of(rs).remove(rs[0].0));
}

/// A record put before a run whose keys sort after it.
proof fn front_contents(r: RecordView, rest: Seq<RecordView>)
    requires
        ascending(rest),
        forall|i: int| 0 <= i < rest.len() ==> lex_lt(r.0, (#[trigger] rest[i]).0),
    ensures
        ascending(seq![r] + rest),
        contents_of(seq![r] + rest) == contents_of(rest).insert(r.0, (r.1, r.2)),
{
    let rs = seq![r] + rest;
    assert forall|i: int, j: int| 0 <= i < j < rs.len() implies lex_lt(rs[i].0, rs[j].0) by {
        assert(rs[j] == rest[j - 1]);
        if i > 0 {
            assert(rs[i] == rest[i - 1]);
        }
    }
    tail_contents(rs);
    contents_facts(rs);
    assert(rs.skip(1) =~= rest);
    assert(rs[0] == r);
    assert(contents_of(rs) =~= contents_of(rest).insert(r.0, (r.1, r.2)));
}

/// The merge of ascending runs ascends, holds no tombstone, and holds of every
/// key exactly the live value of the newest run that has the key.
pub proof fn merge_newest_wins(seqs: Seq<u64>, runs: Seq<Seq<RecordView>>)
    requires
        forall|i: int| 0 <= i < runs.len() ==> ascending(#[trigger] runs[i]),
    ensures
        ascending(merged(seqs, runs)),
        forall|i: int| 0 <= i < merged(seqs, runs).len() ==> !(#[trigger] merged(seqs, runs)[i]).2,
        forall|key: Seq<u8>| #[trigger]
            live(contents_of(merged(seqs, runs)), key) == newest_live(
                seqs,
                run_contents(runs),
                key,
            ),
    decreases total_len(runs),
{
    let out = merged(seqs, runs);
    let tables = run_contents(runs);
    least_key_facts(runs);
    match least_key(runs) {
        None => {
            assert forall|key: Seq<u8>| #[trigger] live(contents_of(out), key) == newest_live(
                seqs,
                tables,
                key,
            ) by {
                newest_of_facts(seqs, holders(tables, key));
                assert forall|i: int| 0 <= i < tables.len() implies !#[trigger] holders(
                    tables,
                    key,
                )[i] by {
                    assert(runs[i].len() == 0);
                }
            }
        },
        Some(k) => {
            let next = without_head(runs, k);
            let rest = merged(seqs, next);
            let after = run_contents(next);
            without_head_shrinks(runs, k);
            newest_head_facts(seqs, runs, k);
            let w = newest_head(seqs, runs, k).unwrap();
            assert forall|i: int| 0 <= i < runs.len() implies ascending(#[trigger] next[i])
                && after[i] == tables[i].remove(k) && tables[i].contains_key(k) == heads(
                runs[i],
                k,
            ) by {
                merge_step_run(runs[i], k);
            }
            merge_newest_wins(seqs, next);
            let fronts = Seq::new(runs.len(), |i: int| heads(runs[i], k));
            newest_head_is(seqs, runs, k);
            assert(holders(tables, k) =~= fronts) by {
                assert forall|i: int| 0 <= i < runs.len() implies holders(tables, k)[i]
                    == fronts[i] by {
                    assert(ascending(next[i]));
                }
            }
            contents_facts(runs[w]);
            assert(tables[w][k] == (runs[w][0].1, runs[w][0].2)) by {
                assert(ascending(runs[w]));
                assert(runs[w][0].0 == k);
            }
            assert forall|key: Seq<u8>| key != k implies #[trigger] newest_live(
                seqs,
                after,
                key,
            ) == newest_live(seqs, tables, key) by {
                assert(holders(after, key) =~= holders(tables, key)) by {
                    assert forall|i: int| 0 <= i < runs.len() implies holders(after, key)[i]
                        == holders(tables, key)[i] by {
                        assert(ascending(next[i]));
                    }
                }
                newest_of_facts(seqs, holders(tables, key));
                if let Some(n) = newest_of(seqs, holders(tables, key)) {
                    assert(ascending(next[n]));
                }
            }
            assert(newest_live(seqs, after, k) is None) by {
                newest_of_facts(seqs, holders(after, k));
                assert forall|i: int| 0 <= i < runs.len() implies !#[trigger] holders(
                    after,
                    k,
                )[i] by {
                    assert(ascending(next[i]));
                }
            }
            merge_after(seqs, runs, k);
            contents_facts(rest);
            let r = runs[w][0];
            if !r.2 {
                front_contents((r.0, r.1, false), rest);
                assert(out == seq![(r.0, r.1, false)] + rest);
            }
            assert forall|key: Seq<u8>| #[trigger] live(contents_of(out), key) == newest_live(
                seqs,
                tables,
                key,
            ) by {
                assert(live(contents_of(rest), key) == newest_live(seqs, after, key));
            }
        },
    }
}

/// Whether the record `p` of the run `i` is the newest of its key: every other run that
/// has the key is older, or comes later and is as old.
pub open spec fn newest_record(
    seqs: Seq<u64>,
    runs: Seq<Seq<RecordView>>,
    i: int,
    p: int,
) -> bool {
    &&& 0 <= i < runs.len()
    &&& 0 <= p < runs[i].len()
    &&& forall|j: int, q: int|
        0 <= j < runs.len() && 0 <= q < runs[j].len() && (#[trigger] runs[j][q]).0 == runs[i][p].0
            ==> seqs[j] < seqs[i] || (seqs[j] == seqs[i] && i <= j)
}

/// Whether `r` is the newest record of its key in the runs, and no tombstone.
pub open spec fn survives(seqs: Seq<u64>, runs: Seq<Seq<RecordView>>, r: RecordView) -> bool {
    !r.2 && exists|i: int, p: int|
        #[trigger] newest_record(seqs, runs, i, p) && runs[i][p] == r
}

/// The merge of ascending runs holds a record exactly if it is the newest of its key
/// and no tombstone, each once, sorted by key.
pub proof fn merge_takes_newest_records(seqs: Seq<u64>, runs: Seq<Seq<RecordView>>)
    requires
        forall|i: int| 0 <= i < runs.len() ==> ascending(#[trigger] runs[i]),
    ensures
        ascending(merged(seqs, runs)),
        forall|r: RecordView| #[trigger]
            merged(seqs, runs).contains(r) <==> survives(seqs, runs, r),
{
    let out = merged(seqs, runs);
    let tables = run_contents(runs);
    merge_newest_wins(seqs, runs);
    contents_facts(out);
    lex_facts();
    assert forall|r: RecordView| #[trigger] out.contains(r) implies survives(seqs, runs, r) by {
        let n = choose|n: int| 0 <= n < out.len() && out[n] == r;
        let key = r.0;
        assert(contents_of(out).contains_key(out[n].0));
        assert(live(contents_of(out), key) == Some(r.1));
        newest_of_facts(seqs, holders(tables, key));
        let w = newest_of(seqs, holders(tables, key)).unwrap();
        assert(ascending(runs[w]));
        contents_facts(runs[w]);
        let p = choose|p: int| 0 <= p < runs[w].len() && #[trigger] runs[w][p].0 == key;
        assert forall|j: int, q: int|
            0 <= j < runs.len() && 0 <= q < runs[j].len() && (#[trigger] runs[j][q]).0
                == key implies seqs[j] < seqs[w] || (seqs[j] == seqs[w] && w <= j) by {
            contents_facts(runs[j]);
            assert(holders(tables, key)[j]);
        }
        assert(newest_record(seqs, runs, w, p));
    }
    assert forall|r: RecordView| survives(seqs, runs, r) implies #[trigger] out.contains(r) by {
        let (i, p) = choose|i: int, p: int|
            #[trigger] newest_record(seqs, runs, i, p) && runs[i][p] == r;
        let key = r.0;
        newest_of_facts(seqs, holders(tables, key));
        assert(ascending(runs[i]));
        contents_facts(runs[i]);
        assert(holders(tables, key)[i]);
        let w = newest_of(seqs, holders(tables, key)).unwrap();
        contents_facts(runs[w]);
        let q = choose|q: int| 0 <= q < runs[w].len() && #[trigger] runs[w][q].0 == key;
        assert(runs[w][q].0 == runs[i][p].0);
        assert(w == i);
        assert(live(contents_of(out), key) == Some(r.1));
        let n = choose|n: int| 0 <= n < out.len() && #[trigger] out[n].0 == key;
        assert(out[n] == r);
    }
}

proof fn merge_step_run(rs: Seq<RecordView>, k: Seq<u8>)
    requires
        ascending(rs),
        rs.len() > 0 ==> !lex_lt(rs[0].0, k),
    ensures
        heads(rs, k) ==> ascending(rs.skip(1)) && contents_of(rs.skip(1)) == contents_of(
            rs,
        ).remove(k),
        !heads(rs, k) ==> contents_of(rs) == contents_of(rs).remove(k),
        contents_of(rs).contains_key(k) == heads(rs, k),
{
    lex_facts();
    contents_facts(rs);
    if heads(rs, k) {
        tail_contents(rs);
        assert(contents_of(rs).contains_key(rs[0].0));
    } else {
        if contents_of(rs).contains_key(k) {
            let i = choose|i: int| 0 <= i < rs.len() && #[trigger] rs[i].0 == k;
            assert(lex_lt(rs[0].0, rs[i].0));
        }
        assert(contents_of(rs) =~= contents_of(rs).remove(k));
    }
}

/// Whether every key of the runs sorts after `k`.
spec fn all_after(runs: Seq<Seq<RecordView>>, k: Seq<u8>) -> bool {
    forall|i: int, p: int|
        0 <= i < runs.len() && 0 <= p < runs[i].len() ==> lex_lt(k, (#[trigger] runs[i][p]).0)
}

proof fn merge_keeps_after(seqs: Seq<u64>, runs: Seq<Seq<RecordView>>, k: Seq<u8>)
    requires
        all_after(runs, k),
    ensures
        forall|i: int|
            0 <= i < merged(seqs, runs).len() ==> lex_lt(k, (#[trigger] merged(seqs, runs)[i]).0),
    decreases total_len(runs),
{
    least_key_facts(runs);
    if let Some(m) = least_key(runs) {
        let next = without_head(runs, m);
        without_head_shrinks(runs, m);
        newest_head_facts(seqs, runs, m);
        assert forall|i: int, p: int|
            0 <= i < next.len() && 0 <= p < next[i].len() implies lex_lt(
            k,
            (#[trigger] next[i][p]).0,
        ) by {
            if heads(runs[i], m) {
                assert(next[i][p] == runs[i][p + 1]);
            } else {
                assert(next[i][p] == runs[i][p]);
            }
        }
        merge_keeps_after(seqs, next, k);
        let w = newest_head(seqs, runs, m).unwrap();
        assert(lex_lt(k, runs[w][0].0));
        let out = merged(seqs, runs);
        let rest = merged(seqs, next);
        assert forall|i: int| 0 <= i < out.len() implies lex_lt(k, (#[trigger] out[i]).0) by {
            if runs[w][0].2 {
                assert(out[i] == rest[i]);
            } else if i > 0 {
                assert(out[i] == rest[i - 1]);
            }
        }
    }
}

proof fn merge_after(seqs: Seq<u64>, runs: Seq<Seq<RecordView>>, k: Seq<u8>)
    requires
        forall|i: int| 0 <= i < runs.len() ==> ascending(#[trigger] runs[i]),
        least_key(runs) == Some(k),
    ensures
        forall|i: int|
            0 <= i < merged(seqs, without_head(runs, k)).len() ==> lex_lt(
                k,
                (#[trigger] merged(seqs, without_head(runs, k))[i]).0,
            ),
{
    let next = without_head(runs, k);
    least_key_facts(runs);
    lex_facts();
    assert forall|i: int, p: int| 0 <= i < next.len() && 0 <= p < next[i].len() implies lex_lt(
        k,
        (#[trigger] next[i][p]).0,
    ) by {
        assert(ascending(runs[i]));
        if heads(runs[i], k) {
            assert(next[i][p] == runs[i][p + 1]);
            assert(lex_lt(runs[i][0].0, runs[i][p + 1].0));
        } else {
            assert(next[i][p] == runs[i][p]);
            assert(!lex_lt(runs[i][0].0, k));
            if p > 0 {
                assert(lex_lt(runs[i][0].0, runs[i][p].0));
            }
        }
    }
    merge_keeps_after(seqs, next, k);
}

} // verus!
