//! The mathematical model of stored data: what a table or memtable holds.

use crate::order::{lex_facts, lex_lt};
use vstd::prelude::*;

verus! {

/// A key's newest state in one place: its value, and whether it is deleted
/// there.
pub type Cell = (Seq<u8>, bool);

/// What a table or memtable holds: the state of each of its keys.
pub type Contents = Map<Seq<u8>, Cell>;

/// The value of a key that is there and not deleted.
pub open spec fn live(contents: Contents, key: Seq<u8>) -> Option<Seq<u8>> {
    if contents.contains_key(key) && !contents[key].1 {
        Some(contents[key].0)
    } else {
        None
    }
}

/// A value, when there is one, by its bytes.
pub open spec fn opt_bytes(v: Option<Vec<u8>>) -> Option<Seq<u8>> {
    match v {
        Some(b) => Some(b@),
        None => None,
    }
}

/// A record: key, value, and whether the key is deleted.
pub type RecordView = (Seq<u8>, Seq<u8>, bool);

/// A record as it is held in memory.
pub type Record = (Vec<u8>, Vec<u8>, bool);

pub open spec fn record_view(r: Record) -> RecordView {
    (r.0@, r.1@, r.2)
}

pub open spec fn record_views(rs: Seq<Record>) -> Seq<RecordView> {
    Seq::new(rs.len(), |i: int| record_view(rs[i]))
}

/// Whether the keys of `rs` strictly ascend.
pub open spec fn ascending(rs: Seq<RecordView>) -> bool {
    forall|i: int, j: int|
        #![trigger rs[i], rs[j]]
        0 <= i < j < rs.len() ==> lex_lt(rs[i].0, rs[j].0)
}

/// What a sequence of records amounts to, later records replacing earlier ones.
pub open spec fn contents_of(rs: Seq<RecordView>) -> Contents
    decreases rs.len(),
{
    if rs.len() == 0 {
        Map::empty()
    } else {
        contents_of(rs.drop_last()).insert(rs.last().0, (rs.last().1, rs.last().2))
    }
}

/// Whether `rs` lists exactly `contents`, each key once, in ascending order.
pub open spec fn lists(rs: Seq<RecordView>, contents: Contents) -> bool {
    ascending(rs) && contents_of(rs) == contents
}

/// Every key of the contents has a record, and in an ascending sequence every
/// record is what the contents say of its key.
pub proof fn contents_facts(rs: Seq<RecordView>)
    ensures
        forall|k: Seq<u8>| #[trigger]
            contents_of(rs).contains_key(k) ==> exists|i: int|
                0 <= i < rs.len() && #[trigger] rs[i].0 == k,
        forall|i: int|
            0 <= i < rs.len() ==> contents_of(rs).contains_key((#[trigger] rs[i]).0),
        ascending(rs) ==> forall|i: int|
            0 <= i < rs.len() ==> contents_of(rs)[(#[trigger] rs[i]).0] == (rs[i].1, rs[i].2),
        contents_of(rs).dom().finite(),
    decreases rs.len(),
{
    lex_facts();
    if rs.len() > 0 {
        let rest = rs.drop_last();
        contents_facts(rest);
        assert forall|k: Seq<u8>| #[trigger] contents_of(rs).contains_key(k) implies exists|i: int|
            0 <= i < rs.len() && #[trigger] rs[i].0 == k by {
            if k == rs.last().0 {
                assert(rs[rs.len() - 1].0 == k);
            } else {
                assert(contents_of(rest).contains_key(k));
                let i = choose|i: int| 0 <= i < rest.len() && #[trigger] rest[i].0 == k;
                assert(rs[i].0 == k);
            }
        }
        assert forall|i: int| 0 <= i < rs.len() implies contents_of(rs).contains_key(
            (#[trigger] rs[i]).0,
        ) by {
            if i < rs.len() - 1 {
                assert(rest[i] == rs[i]);
            }
        }
        if ascending(rs) {
            assert(ascending(rest)) by {
                assert forall|i: int, j: int| 0 <= i < j < rest.len() implies lex_lt(
                    rest[i].0,
                    rest[j].0,
                ) by {
                    assert(rs[i] == rest[i] && rs[j] == rest[j]);
                }
            }
            assert forall|i: int| 0 <= i < rs.len() implies contents_of(rs)[(
            #[trigger] rs[i]).0] == (rs[i].1, rs[i].2) by {
                if i < rs.len() - 1 {
                    assert(rest[i] == rs[i]);
                    assert(lex_lt(rs[i].0, rs[rs.len() - 1].0));
                }
            }
        }
    }
}

/// An ascending sequence has as many records as its contents have keys.
pub proof fn listing_len(rs: Seq<RecordView>)
    requires
        ascending(rs),
    ensures
        contents_of(rs).dom().len() == rs.len(),
    decreases rs.len(),
{
    if rs.len() > 0 {
        let rest = rs.drop_last();
        listing_shrinks(rs);
        listing_len(rest);
        contents_facts(rest);
        assert(contents_of(rs).dom() =~= contents_of(rest).dom().insert(rs.last().0));
    } else {
        assert(contents_of(rs).dom() =~= Set::empty());
    }
}

/// Dropping the last record of a listing drops its key from the contents.
proof fn listing_shrinks(rs: Seq<RecordView>)
    requires
        ascending(rs),
        rs.len() > 0,
    ensures
        ascending(rs.drop_last()),
        contents_of(rs.drop_last()) == contents_of(rs).remove(rs.last().0),
{
    lex_facts();
    let rest = rs.drop_last();
    assert(ascending(rest)) by {
        assert forall|i: int, j: int| 0 <= i < j < rest.len() implies lex_lt(
            rest[i].0,
            rest[j].0,
        ) by {
            assert(rs[i] == rest[i] && rs[j] == rest[j]);
        }
    }
    contents_facts(rest);
    assert(!contents_of(rest).contains_key(rs.last().0)) by {
        if contents_of(rest).contains_key(rs.last().0) {
            let i = choose|i: int| 0 <= i < rest.len() && #[trigger] rest[i].0 == rs.last().0;
            assert(lex_lt(rs[i].0, rs[rs.len() - 1].0));
        }
    }
    assert(contents_of(rest) =~= contents_of(rs).remove(rs.last().0));
}

/// There is only one way to list contents.
pub proof fn listing_unique(a: Seq<RecordView>, b: Seq<RecordView>, contents: Contents)
    requires
        lists(a, contents),
        lists(b, contents),
    ensures
        a == b,
    decreases a.len(),
{
    lex_facts();
    listing_len(a);
    listing_len(b);
    contents_facts(a);
    contents_facts(b);
    if a.len() == 0 {
        assert(a =~= b);
    } else {
        let n = a.len() - 1;
        assert(contents.contains_key(a[n].0) && contents.contains_key(b[n].0));
        let i = choose|i: int| 0 <= i < b.len() && #[trigger] b[i].0 == a[n].0;
        let j = choose|j: int| 0 <= j < a.len() && #[trigger] a[j].0 == b[n].0;
        assert(a[n].0 == b[n].0);
        assert(a[n] == b[n]);
        listing_shrinks(a);
        listing_shrinks(b);
        listing_unique(a.drop_last(), b.drop_last(), contents.remove(a.last().0));
        assert(a =~= a.drop_last().push(a.last()));
        assert(b =~= b.drop_last().push(b.last()));
    }
}

} // verus!
