//! Read store: point-get and prefix-scan over byte-keyed rows.
//!
//! The persisted index and the mempool index both present this shape.  Rows
//! are kept strictly sorted by key, so a scan returns its matches in key
//! order and keys are unique.
use vstd::prelude::*;

use crate::bytes::{bytes_eq, has_prefix, is_prefix, lemma_lex_lt_connected, lemma_lex_lt_trans,
    lex_less, lex_lt};

verus! {

/// One key/value pair of the index.
pub struct Row {
    pub key: Vec<u8>,
    pub value: Vec<u8>,
}

/// The mathematical content of a row.
pub ghost struct RowV {
    pub key: Seq<u8>,
    pub value: Seq<u8>,
}

impl View for Row {
    type V = RowV;

    open spec fn view(&self) -> RowV {
        RowV { key: self.key@, value: self.value@ }
    }
}

impl Row {
    /// A fresh row with the same content.
    pub fn duplicate(&self) -> (r: Row)
        ensures
            r@ == self@,
    {
        let r = Row { key: self.key.clone(), value: self.value.clone() };
        proof {
            assert(r.key@ =~= self.key@);
            assert(r.value@ =~= self.value@);
        }
        r
    }
}

/// Keys strictly ascending in lexicographic order.
pub open spec fn sorted_rows(rows: Seq<RowV>) -> bool {
    forall|i: int, j: int|
        0 <= i < j < rows.len() ==> lex_lt(#[trigger] rows[i].key, #[trigger] rows[j].key)
}

/// The value under the first row of `rows` whose key is `key`, if any.
pub open spec fn store_get(rows: Seq<RowV>, key: Seq<u8>) -> Option<Seq<u8>>
    decreases rows.len(),
{
    if rows.len() == 0 {
        None
    } else if rows[0].key == key {
        Some(rows[0].value)
    } else {
        store_get(rows.drop_first(), key)
    }
}

/// The rows of `rows` whose key starts with `prefix`, kept in order.
pub open spec fn rows_with_prefix(rows: Seq<RowV>, prefix: Seq<u8>) -> Seq<RowV>
    decreases rows.len(),
{
    if rows.len() == 0 {
        Seq::<RowV>::empty()
    } else {
        let rest = rows_with_prefix(rows.drop_first(), prefix);
        if is_prefix(prefix, rows[0].key) {
            seq![rows[0]] + rest
        } else {
            rest
        }
    }
}

/// Where `key` goes in `rows`: the number of rows whose key is strictly
/// below it.
pub open spec fn row_insert(rows: Seq<RowV>, key: Seq<u8>, value: Seq<u8>) -> Seq<RowV>
    decreases rows.len(),
{
    let new = RowV { key, value };
    if rows.len() == 0 {
        seq![new]
    } else if lex_lt(rows[0].key, key) {
        seq![rows[0]] + row_insert(rows.drop_first(), key, value)
    } else if rows[0].key == key {
        seq![new] + rows.drop_first()
    } else {
        seq![new] + rows
    }
}

/// In-memory snapshot of the index, read through get and scan.
pub struct Store {
    rows: Vec<Row>,
}

impl View for Store {
    type V = Seq<RowV>;

    closed spec fn view(&self) -> Seq<RowV> {
        self.rows@.map_values(|r: Row| r@)
    }
}

impl Store {
    /// Keys strictly sorted, hence unique.
    pub open spec fn wf(&self) -> bool {
        sorted_rows(self@)
    }

    pub fn new() -> (r: Store)
        ensures
            r.wf(),
            r@ == Seq::<RowV>::empty(),
    {
        let r = Store { rows: Vec::new() };
        proof {
            assert(r@ =~= Seq::<RowV>::empty());
        }
        r
    }

    /// The value stored under `key`, if any.
    pub fn get(&self, key: &Vec<u8>) -> (r: Option<Vec<u8>>)
        ensures
            match r {
                Some(v) => store_get(self@, key@) == Some(v@),
                None => store_get(self@, key@) is None,
            },
    {
        let n = self.rows.len();
        let mut i: usize = 0;
        proof {
            assert(self@.skip(0) =~= self@);
        }
        while i < n
            invariant
                n == self.rows.len(),
                self@.len() == n,
                i <= n,
                store_get(self@, key@) == store_get(self@.skip(i as int), key@),
            decreases n - i,
        {
            proof {
                assert(self@[i as int] == self.rows@[i as int]@);
                assert(self@.skip(i as int)[0] == self@[i as int]);
            }
            if bytes_eq(&self.rows[i].key, key) {
                let v = self.rows[i].value.clone();
                proof {
                    assert(v@ =~= self.rows@[i as int].value@);
                    assert(store_get(self@.skip(i as int), key@) == Some(self@[i as int].value));
                }
                return Some(v);
            }
            proof {
                assert(self@.skip(i as int).drop_first() =~= self@.skip(i + 1));
            }
            i = i + 1;
        }
        proof {
            assert(self@.skip(n as int).len() == 0);
        }
        None
    }

    /// All rows whose key starts with `prefix`, in key order.
    pub fn scan(&self, prefix: &Vec<u8>) -> (r: Vec<Row>)
        ensures
            r@.map_values(|row: Row| row@) == rows_with_prefix(self@, prefix@),
    {
        let mut out: Vec<Row> = Vec::new();
        let n = self.rows.len();
        let mut i: usize = 0;
        proof {
            assert(self@.skip(0) =~= self@);
            assert(out@.map_values(|row: Row| row@) =~= Seq::<RowV>::empty());
        }
        while i < n
            invariant
                n == self.rows.len(),
                i <= n,
                self@.len() == n,
                rows_with_prefix(self@, prefix@) == out@.map_values(|row: Row| row@)
                    + rows_with_prefix(self@.skip(i as int), prefix@),
            decreases n - i,
        {
            let ghost cur = self@[i as int];
            let ghost rest = self@.skip(i as int);
            proof {
                assert(cur == self.rows@[i as int]@);
                assert(rest[0] == cur);
                assert(rest.drop_first() =~= self@.skip(i + 1));
            }
            if has_prefix(&self.rows[i].key, prefix) {
                let dup = self.rows[i].duplicate();
                out.push(dup);
                proof {
                    assert(out@.map_values(|row: Row| row@) =~= out@.map_values(
                        |row: Row| row@,
                    ).subrange(0, out@.len() - 1).push(cur));
                    assert(rows_with_prefix(rest, prefix@) == seq![cur] + rows_with_prefix(
                        self@.skip(i + 1),
                        prefix@,
                    ));
                    assert(rows_with_prefix(self@, prefix@) =~= out@.map_values(|row: Row| row@)
                        + rows_with_prefix(self@.skip(i + 1), prefix@));
                }
            } else {
                proof {
                    assert(rows_with_prefix(rest, prefix@) == rows_with_prefix(
                        self@.skip(i + 1),
                        prefix@,
                    ));
                }
            }
            i = i + 1;
        }
        proof {
            assert(self@.skip(n as int).len() == 0);
            assert(rows_with_prefix(self@.skip(n as int), prefix@) == Seq::<RowV>::empty());
            assert(rows_with_prefix(self@, prefix@) =~= out@.map_values(|row: Row| row@));
        }
        out
    }

    /// Insert `key -> value`, replacing the row with the same key if one is
    /// there, keeping the keys sorted.
    pub fn insert(&mut self, key: Vec<u8>, value: Vec<u8>)
        requires
            old(self).wf(),
        ensures
            final(self).wf(),
            final(self)@ == row_insert(old(self)@, key@, value@),
    {
        let ghost kv = key@;
        let ghost vv = value@;
        let n = self.rows.len();
        let mut i: usize = 0;
        proof {
            assert(self@.subrange(0, n as int) =~= self@);
            assert(self@.subrange(0, 0) + row_insert(self@.subrange(0, n as int), kv, vv)
                =~= row_insert(self@, kv, vv));
        }
        // find the first key that is not below `key`
        loop
            invariant
                n == self.rows.len(),
                self@.len() == n,
                i <= n,
                self@ == old(self)@,
                sorted_rows(self@),
                kv == key@,
                vv == value@,
                forall|j: int| 0 <= j < i ==> lex_lt((#[trigger] self@[j]).key, kv),
                row_insert(self@, kv, vv) == self@.subrange(0, i as int) + row_insert(
                    self@.subrange(i as int, n as int),
                    kv,
                    vv,
                ),
            ensures
                n == self.rows.len(),
                self@ == old(self)@,
                i <= n,
                forall|j: int| 0 <= j < i ==> lex_lt((#[trigger] self@[j]).key, kv),
                i < n ==> !lex_lt(self@[i as int].key, kv),
                row_insert(self@, kv, vv) == self@.subrange(0, i as int) + row_insert(
                    self@.subrange(i as int, n as int),
                    kv,
                    vv,
                ),
            decreases n - i,
        {
            if i == n {
                break ;
            }
            let ghost rest = self@.subrange(i as int, n as int);
            proof {
                assert(self@[i as int] == self.rows@[i as int]@);
                assert(rest[0] == self@[i as int]);
            }
            if !lex_less(&self.rows[i].key, &key) {
                break ;
            }
            proof {
                assert(lex_lt(rest[0].key, kv));
                assert(row_insert(rest, kv, vv) == seq![rest[0]] + row_insert(
                    rest.drop_first(),
                    kv,
                    vv,
                ));
                assert(rest.drop_first() =~= self@.subrange(i + 1, n as int));
                assert(self@.subrange(0, i as int) + row_insert(rest, kv, vv) =~= self@.subrange(
                    0,
                    i + 1,
                ) + row_insert(self@.subrange(i + 1, n as int), kv, vv));
            }
            i = i + 1;
        }
        let ghost old_view = self@;
        let ghost rest = self@.subrange(i as int, n as int);
        let new_row = Row { key, value };
        proof {
            assert(new_row@ == RowV { key: kv, value: vv });
        }
        if i == n {
            // every key is below: append at the end
            proof {
                assert(rest.len() == 0);
                assert(row_insert(rest, kv, vv) =~= seq![RowV { key: kv, value: vv }]);
            }
            self.rows.push(new_row);
            proof {
                assert(self@ =~= old_view + seq![RowV { key: kv, value: vv }]);
                assert(self@ =~= old_view.subrange(0, n as int) + row_insert(rest, kv, vv));
                assert forall|p: int, q: int| 0 <= p < q < self@.len() implies lex_lt(
                    (#[trigger] self@[p]).key,
                    (#[trigger] self@[q]).key,
                ) by {
                    if q < old_view.len() {
                        assert(lex_lt(old_view[p].key, old_view[q].key));
                    } else {
                        assert(self@[p] == old_view[p]);
                        assert(lex_lt(old_view[p].key, kv));
                    }
                }
            }
            return ;
        }
        proof {
            assert(self@[i as int] == self.rows@[i as int]@);
            assert(rest[0] == self@[i as int]);
        }
        let same = bytes_eq(&self.rows[i].key, &new_row.key);
        if same {
            // replace the row that carries this key
            proof {
                assert(rest[0].key == kv);
                assert(rest.drop_first() =~= old_view.subrange(i + 1, n as int));
                assert(row_insert(rest, kv, vv) =~= seq![RowV { key: kv, value: vv }]
                    + old_view.subrange(i + 1, n as int));
            }
            self.rows.remove(i);
            self.rows.insert(i, new_row);
            proof {
                assert(self@ =~= old_view.update(i as int, RowV { key: kv, value: vv }));
                assert(self@ =~= old_view.subrange(0, i as int) + row_insert(rest, kv, vv));
                assert forall|p: int, q: int| 0 <= p < q < self@.len() implies lex_lt(
                    (#[trigger] self@[p]).key,
                    (#[trigger] self@[q]).key,
                ) by {
                    assert(old_view[p].key == self@[p].key || p == i);
                    assert(old_view[q].key == self@[q].key || q == i);
                    assert(lex_lt(old_view[p].key, old_view[q].key));
                }
            }
        } else {
            // the new key goes right before position i
            proof {
                lemma_lex_lt_connected(self.rows@[i as int].key@, kv);
                assert(lex_lt(kv, rest[0].key));
                assert(row_insert(rest, kv, vv) =~= seq![RowV { key: kv, value: vv }] + rest);
            }
            self.rows.insert(i, new_row);
            proof {
                assert(self@ =~= old_view.insert(i as int, RowV { key: kv, value: vv }));
                assert(self@ =~= old_view.subrange(0, i as int) + row_insert(rest, kv, vv));
                assert forall|p: int, q: int| 0 <= p < q < self@.len() implies lex_lt(
                    (#[trigger] self@[p]).key,
                    (#[trigger] self@[q]).key,
                ) by {
                    if p == i {
                        assert(self@[p].key == kv);
                        assert(self@[q] == old_view[q - 1]);
                        if q - 1 == i {
                            assert(lex_lt(kv, old_view[i as int].key));
                        } else {
                            assert(lex_lt(old_view[i as int].key, old_view[q - 1].key));
                            lemma_lex_lt_trans(kv, old_view[i as int].key, old_view[q - 1].key);
                        }
                    } else if q == i {
                        assert(self@[p] == old_view[p]);
                        assert(lex_lt(old_view[p].key, kv));
                    } else {
                        let op: int = if p < i { p } else { p - 1 };
                        let oq: int = if q < i { q } else { q - 1 };
                        assert(self@[p] == old_view[op]);
                        assert(self@[q] == old_view[oq]);
                        assert(op < oq);
                        assert(lex_lt(old_view[op].key, old_view[oq].key));
                    }
                }
            }
        }
    }
}

} // verus!
