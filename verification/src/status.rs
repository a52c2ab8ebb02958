//! The per-scripthash result of the status engine: funding outputs,
//! spending inputs, and the views derived from them.
use vstd::prelude::*;

use crate::bytes::{bytes_eq, lex_lt};

verus! {

/// The records a list of funding outputs holds.
pub open spec fn fundings_view(s: Seq<FundingOutput>) -> Seq<FundingOutputV> {
    s.map_values(|x: FundingOutput| x@)
}

/// The records a list of spending inputs holds.
pub open spec fn spendings_view(s: Seq<SpendingInput>) -> Seq<SpendingInputV> {
    s.map_values(|x: SpendingInput| x@)
}

/// An output paying the queried scripthash.
pub struct FundingOutput {
    pub txn_id: Vec<u8>,
    pub height: u32,
    pub output_index: u32,
    pub value: u64,
}

pub ghost struct FundingOutputV {
    pub txn_id: Seq<u8>,
    pub height: u32,
    pub output_index: u32,
    pub value: u64,
}

impl View for FundingOutput {
    type V = FundingOutputV;

    open spec fn view(&self) -> FundingOutputV {
        FundingOutputV {
            txn_id: self.txn_id@,
            height: self.height,
            output_index: self.output_index,
            value: self.value,
        }
    }
}

impl FundingOutput {
    pub fn duplicate(&self) -> (r: FundingOutput)
        ensures
            r@ == self@,
    {
        let txn_id = self.txn_id.clone();
        proof {
            assert(txn_id@ =~= self.txn_id@);
        }
        FundingOutput {
            txn_id,
            height: self.height,
            output_index: self.output_index,
            value: self.value,
        }
    }
}

/// An input consuming one of the scripthash's funding outputs.
pub struct SpendingInput {
    pub txn_id: Vec<u8>,
    pub height: u32,
    pub funding_txid: Vec<u8>,
    pub funding_vout: u32,
    pub value: u64,
}

pub ghost struct SpendingInputV {
    pub txn_id: Seq<u8>,
    pub height: u32,
    pub funding_txid: Seq<u8>,
    pub funding_vout: u32,
    pub value: u64,
}

impl View for SpendingInput {
    type V = SpendingInputV;

    open spec fn view(&self) -> SpendingInputV {
        SpendingInputV {
            txn_id: self.txn_id@,
            height: self.height,
            funding_txid: self.funding_txid@,
            funding_vout: self.funding_vout,
            value: self.value,
        }
    }
}

impl SpendingInput {
    pub fn duplicate(&self) -> (r: SpendingInput)
        ensures
            r@ == self@,
    {
        let txn_id = self.txn_id.clone();
        let funding_txid = self.funding_txid.clone();
        proof {
            assert(txn_id@ =~= self.txn_id@);
            assert(funding_txid@ =~= self.funding_txid@);
        }
        SpendingInput {
            txn_id,
            height: self.height,
            funding_txid,
            funding_vout: self.funding_vout,
            value: self.value,
        }
    }
}

/// Everything the engine found for one scripthash: the confirmed and the
/// mempool funding/spending sets.
pub struct Status {
    pub confirmed_funding: Vec<FundingOutput>,
    pub confirmed_spending: Vec<SpendingInput>,
    pub mempool_funding: Vec<FundingOutput>,
    pub mempool_spending: Vec<SpendingInput>,
}

pub ghost struct StatusV {
    pub confirmed_funding: Seq<FundingOutputV>,
    pub confirmed_spending: Seq<SpendingInputV>,
    pub mempool_funding: Seq<FundingOutputV>,
    pub mempool_spending: Seq<SpendingInputV>,
}

impl View for Status {
    type V = StatusV;

    open spec fn view(&self) -> StatusV {
        StatusV {
            confirmed_funding: fundings_view(self.confirmed_funding@),
            confirmed_spending: spendings_view(self.confirmed_spending@),
            mempool_funding: fundings_view(self.mempool_funding@),
            mempool_spending: spendings_view(self.mempool_spending@),
        }
    }
}

impl StatusV {
    /// All funding records, confirmed first.
    pub open spec fn funding(self) -> Seq<FundingOutputV> {
        self.confirmed_funding + self.mempool_funding
    }

    /// All spending records, confirmed first.
    pub open spec fn spending(self) -> Seq<SpendingInputV> {
        self.confirmed_spending + self.mempool_spending
    }
}

// ---------------------------------------------------------------------------
// Balances
// ---------------------------------------------------------------------------

/// The sum of the funding records' values.
pub open spec fn sum_funding(fs: Seq<FundingOutputV>) -> int
    decreases fs.len(),
{
    if fs.len() == 0 {
        0
    } else {
        fs[0].value + sum_funding(fs.drop_first())
    }
}

/// The sum of the spending records' values.
pub open spec fn sum_spending(ss: Seq<SpendingInputV>) -> int
    decreases ss.len(),
{
    if ss.len() == 0 {
        0
    } else {
        ss[0].value + sum_spending(ss.drop_first())
    }
}

/// What one side of a status is worth: funded minus spent.
pub open spec fn balance_of(fs: Seq<FundingOutputV>, ss: Seq<SpendingInputV>) -> int {
    sum_funding(fs) - sum_spending(ss)
}

pub proof fn lemma_sum_funding_nonneg(fs: Seq<FundingOutputV>)
    ensures
        sum_funding(fs) >= 0,
    decreases fs.len(),
{
    if fs.len() > 0 {
        lemma_sum_funding_nonneg(fs.drop_first());
    }
}

pub proof fn lemma_sum_spending_nonneg(ss: Seq<SpendingInputV>)
    ensures
        sum_spending(ss) >= 0,
    decreases ss.len(),
{
    if ss.len() > 0 {
        lemma_sum_spending_nonneg(ss.drop_first());
    }
}

pub proof fn lemma_sum_funding_concat(a: Seq<FundingOutputV>, b: Seq<FundingOutputV>)
    ensures
        sum_funding(a + b) == sum_funding(a) + sum_funding(b),
    decreases a.len(),
{
    if a.len() == 0 {
        assert(a + b =~= b);
    } else {
        assert((a + b).drop_first() =~= a.drop_first() + b);
        lemma_sum_funding_concat(a.drop_first(), b);
    }
}

pub proof fn lemma_sum_spending_concat(a: Seq<SpendingInputV>, b: Seq<SpendingInputV>)
    ensures
        sum_spending(a + b) == sum_spending(a) + sum_spending(b),
    decreases a.len(),
{
    if a.len() == 0 {
        assert(a + b =~= b);
    } else {
        assert((a + b).drop_first() =~= a.drop_first() + b);
        lemma_sum_spending_concat(a.drop_first(), b);
    }
}

/// Law: the confirmed and the mempool balance together equal the value of
/// all funding records minus the value of all spending records.
pub proof fn lemma_balance_split(st: StatusV)
    ensures
        balance_of(st.confirmed_funding, st.confirmed_spending) + balance_of(
            st.mempool_funding,
            st.mempool_spending,
        ) == sum_funding(st.funding()) - sum_spending(st.spending()),
{
    lemma_sum_funding_concat(st.confirmed_funding, st.mempool_funding);
    lemma_sum_spending_concat(st.confirmed_spending, st.mempool_spending);
}

/// Funded minus spent over one side's records.
fn calc_balance(funding: &Vec<FundingOutput>, spending: &Vec<SpendingInput>) -> (r: i64)
    requires
        sum_funding(fundings_view(funding@)) <= i64::MAX,
        sum_spending(spendings_view(spending@)) <= i64::MAX,
    ensures
        r == balance_of(fundings_view(funding@), spendings_view(spending@)),
{
    let ghost fv = fundings_view(funding@);
    let ghost sv = spendings_view(spending@);
    let mut funded: u64 = 0;
    let n = funding.len();
    let mut i: usize = 0;
    proof {
        assert(fv.skip(0) =~= fv);
    }
    while i < n
        invariant
            n == funding.len(),
            i <= n,
            fv == fundings_view(funding@),
            fv.len() == n,
            sum_funding(fv) <= i64::MAX,
            funded + sum_funding(fv.skip(i as int)) == sum_funding(fv),
        decreases n - i,
    {
        proof {
            assert(fv[i as int] == funding@[i as int]@);
            assert(fv.skip(i as int)[0] == fv[i as int]);
            assert(fv.skip(i as int).drop_first() =~= fv.skip(i + 1));
            lemma_sum_funding_nonneg(fv.skip(i + 1));
        }
        funded = funded + funding[i].value;
        i = i + 1;
    }
    proof {
        assert(fv.skip(n as int).len() == 0);
    }
    let mut spent: u64 = 0;
    let m = spending.len();
    let mut j: usize = 0;
    proof {
        assert(sv.skip(0) =~= sv);
    }
    while j < m
        invariant
            m == spending.len(),
            j <= m,
            sv == spendings_view(spending@),
            sv.len() == m,
            sum_spending(sv) <= i64::MAX,
            spent + sum_spending(sv.skip(j as int)) == sum_spending(sv),
        decreases m - j,
    {
        proof {
            assert(sv[j as int] == spending@[j as int]@);
            assert(sv.skip(j as int)[0] == sv[j as int]);
            assert(sv.skip(j as int).drop_first() =~= sv.skip(j + 1));
            lemma_sum_spending_nonneg(sv.skip(j + 1));
        }
        spent = spent + spending[j].value;
        j = j + 1;
    }
    proof {
        assert(sv.skip(m as int).len() == 0);
        lemma_sum_funding_nonneg(fv);
        lemma_sum_spending_nonneg(sv);
    }
    (funded as i64) - (spent as i64)
}

impl Status {
    /// The balance of the confirmed records: funded minus spent.
    pub fn confirmed_balance(&self) -> (r: i64)
        requires
            sum_funding(self@.confirmed_funding) <= i64::MAX,
            sum_spending(self@.confirmed_spending) <= i64::MAX,
        ensures
            r == balance_of(self@.confirmed_funding, self@.confirmed_spending),
    {
        calc_balance(&self.confirmed_funding, &self.confirmed_spending)
    }

    /// The balance of the mempool records: funded minus spent.
    pub fn mempool_balance(&self) -> (r: i64)
        requires
            sum_funding(self@.mempool_funding) <= i64::MAX,
            sum_spending(self@.mempool_spending) <= i64::MAX,
        ensures
            r == balance_of(self@.mempool_funding, self@.mempool_spending),
    {
        calc_balance(&self.mempool_funding, &self.mempool_spending)
    }
}


// ---------------------------------------------------------------------------
// History
// ---------------------------------------------------------------------------

/// A stored height read back as signed: the mempool's `u32::MAX` is `-1`,
/// its `0` stays `0`, confirmed heights are themselves.
pub open spec fn height_signed(h: u32) -> i32 {
    (if h >= 0x8000_0000 {
        h - 0x1_0000_0000
    } else {
        h as int
    }) as i32
}

/// Read a stored height as signed.
pub fn height_to_i32(h: u32) -> (r: i32)
    ensures
        r == height_signed(h),
{
    if h <= 0x7fff_ffff {
        h as i32
    } else {
        ((h as i64) - 0x1_0000_0000i64) as i32
    }
}

/// The pairs a list of history entries holds.
pub open spec fn pairs_view(s: Seq<(i32, Vec<u8>)>) -> Seq<(i32, Seq<u8>)> {
    s.map_values(|p: (i32, Vec<u8>)| (p.0, p.1@))
}

/// History order: by height, then by txid bytes.
pub open spec fn hist_lt(a: (i32, Seq<u8>), b: (i32, Seq<u8>)) -> bool {
    a.0 < b.0 || (a.0 == b.0 && lex_lt(a.1, b.1))
}

pub proof fn lemma_hist_lt_trans(a: (i32, Seq<u8>), b: (i32, Seq<u8>), c: (i32, Seq<u8>))
    requires
        hist_lt(a, b),
        hist_lt(b, c),
    ensures
        hist_lt(a, c),
{
    if a.0 == b.0 && b.0 == c.0 {
        crate::bytes::lemma_lex_lt_trans(a.1, b.1, c.1);
    }
}

pub proof fn lemma_hist_lt_connected(a: (i32, Seq<u8>), b: (i32, Seq<u8>))
    requires
        a.1 != b.1 || a.0 != b.0,
    ensures
        hist_lt(a, b) || hist_lt(b, a),
{
    if a.0 == b.0 {
        crate::bytes::lemma_lex_lt_connected(a.1, b.1);
    }
}

/// The history entry of each funding record, in order.
pub open spec fn fund_entry_list(fs: Seq<FundingOutputV>) -> Seq<(i32, Seq<u8>)>
    decreases fs.len(),
{
    if fs.len() == 0 {
        Seq::<(i32, Seq<u8>)>::empty()
    } else {
        seq![(height_signed(fs[0].height), fs[0].txn_id)] + fund_entry_list(fs.drop_first())
    }
}

/// The history entry of each spending record, in order.
pub open spec fn spend_entry_list(ss: Seq<SpendingInputV>) -> Seq<(i32, Seq<u8>)>
    decreases ss.len(),
{
    if ss.len() == 0 {
        Seq::<(i32, Seq<u8>)>::empty()
    } else {
        seq![(height_signed(ss[0].height), ss[0].txn_id)] + spend_entry_list(ss.drop_first())
    }
}

/// One entry per record, funding first, each spending entry overriding an
/// earlier entry with its txid.
pub open spec fn entry_list(st: StatusV) -> Seq<(i32, Seq<u8>)> {
    fund_entry_list(st.funding()) + spend_entry_list(st.spending())
}

/// Entries folded into a txid-keyed map: a later entry wins.
pub open spec fn map_of_entries(m: Map<Seq<u8>, i32>, es: Seq<(i32, Seq<u8>)>) -> Map<Seq<u8>, i32>
    decreases es.len(),
{
    if es.len() == 0 {
        m
    } else {
        map_of_entries(m.insert(es[0].1, es[0].0), es.drop_first())
    }
}

/// The history of a status as a map: every funding or spending txid, at the
/// height its last record names.
pub open spec fn history_map(st: StatusV) -> Map<Seq<u8>, i32> {
    map_of_entries(Map::<Seq<u8>, i32>::empty(), entry_list(st))
}

/// No two entries carry the same txid.
pub open spec fn unique_txids(es: Seq<(i32, Seq<u8>)>) -> bool {
    forall|i: int, j: int| 0 <= i < j < es.len() ==> (#[trigger] es[i]).1 != (#[trigger] es[j]).1
}

/// Append one history entry per funding record.
fn push_fund_entries(recs: &mut Vec<(i32, Vec<u8>)>, fs: &Vec<FundingOutput>)
    ensures
        pairs_view(final(recs)@) == pairs_view(old(recs)@) + fund_entry_list(fundings_view(fs@)),
{
    let ghost fv = fundings_view(fs@);
    let n = fs.len();
    let mut i: usize = 0;
    proof {
        assert(fv.skip(0) =~= fv);
        assert(pairs_view(recs@) + Seq::<(i32, Seq<u8>)>::empty() =~= pairs_view(recs@));
    }
    while i < n
        invariant
            n == fs.len(),
            i <= n,
            fv == fundings_view(fs@),
            fv.len() == n,
            pairs_view(recs@) + fund_entry_list(fv.skip(i as int)) == pairs_view(old(recs)@)
                + fund_entry_list(fv),
        decreases n - i,
    {
        proof {
            assert(fv[i as int] == fs@[i as int]@);
            assert(fv.skip(i as int)[0] == fv[i as int]);
            assert(fv.skip(i as int).drop_first() =~= fv.skip(i + 1));
        }
        let ghost pre = recs@;
        let h = height_to_i32(fs[i].height);
        let txid = fs[i].txn_id.clone();
        proof {
            assert(txid@ =~= fs@[i as int].txn_id@);
        }
        recs.push((h, txid));
        proof {
            assert(pairs_view(recs@) =~= pairs_view(pre).push(
                (height_signed(fv[i as int].height), fv[i as int].txn_id),
            ));
            assert(fund_entry_list(fv.skip(i as int)) == seq![
                (height_signed(fv[i as int].height), fv[i as int].txn_id),
            ] + fund_entry_list(fv.skip(i + 1)));
            assert(pairs_view(recs@) + fund_entry_list(fv.skip(i + 1)) =~= pairs_view(pre)
                + fund_entry_list(fv.skip(i as int)));
        }
        i = i + 1;
    }
    proof {
        assert(fund_entry_list(fv.skip(n as int)) == Seq::<(i32, Seq<u8>)>::empty());
        assert(pairs_view(recs@) + Seq::<(i32, Seq<u8>)>::empty() =~= pairs_view(recs@));
    }
}

/// Append one history entry per spending record.
fn push_spend_entries(recs: &mut Vec<(i32, Vec<u8>)>, ss: &Vec<SpendingInput>)
    ensures
        pairs_view(final(recs)@) == pairs_view(old(recs)@) + spend_entry_list(spendings_view(ss@)),
{
    let ghost sv = spendings_view(ss@);
    let n = ss.len();
    let mut i: usize = 0;
    proof {
        assert(sv.skip(0) =~= sv);
        assert(pairs_view(recs@) + Seq::<(i32, Seq<u8>)>::empty() =~= pairs_view(recs@));
    }
    while i < n
        invariant
            n == ss.len(),
            i <= n,
            sv == spendings_view(ss@),
            sv.len() == n,
            pairs_view(recs@) + spend_entry_list(sv.skip(i as int)) == pairs_view(old(recs)@)
                + spend_entry_list(sv),
        decreases n - i,
    {
        proof {
            assert(sv[i as int] == ss@[i as int]@);
            assert(sv.skip(i as int)[0] == sv[i as int]);
            assert(sv.skip(i as int).drop_first() =~= sv.skip(i + 1));
        }
        let ghost pre = recs@;
        let h = height_to_i32(ss[i].height);
        let txid = ss[i].txn_id.clone();
        proof {
            assert(txid@ =~= ss@[i as int].txn_id@);
        }
        recs.push((h, txid));
        proof {
            assert(pairs_view(recs@) =~= pairs_view(pre).push(
                (height_signed(sv[i as int].height), sv[i as int].txn_id),
            ));
            assert(spend_entry_list(sv.skip(i as int)) == seq![
                (height_signed(sv[i as int].height), sv[i as int].txn_id),
            ] + spend_entry_list(sv.skip(i + 1)));
            assert(pairs_view(recs@) + spend_entry_list(sv.skip(i + 1)) =~= pairs_view(pre)
                + spend_entry_list(sv.skip(i as int)));
        }
        i = i + 1;
    }
    proof {
        assert(spend_entry_list(sv.skip(n as int)) == Seq::<(i32, Seq<u8>)>::empty());
        assert(pairs_view(recs@) + Seq::<(i32, Seq<u8>)>::empty() =~= pairs_view(recs@));
    }
}

impl Status {
    /// The history of a scripthash: one entry per distinct txid among its
    /// funding and spending records, each at the height its latest record
    /// names, in ascending `(height, txid)` order.  The list is strictly
    /// sorted, so no txid repeats; mempool entries (negative or zero
    /// heights) come before confirmed ones, and a record with an
    /// unconfirmed parent (`-1`) before one whose parents are confirmed
    /// (`0`).
    pub fn history(&self) -> (r: Vec<(i32, Vec<u8>)>)
        ensures
            ({
                let rv = pairs_view(r@);
                let m = history_map(self@);
                &&& forall|i: int, j: int|
                    0 <= i < j < rv.len() ==> hist_lt(#[trigger] rv[i], #[trigger] rv[j])
                &&& unique_txids(rv)
                &&& forall|i: int|
                    0 <= i < rv.len() ==> m.contains_key((#[trigger] rv[i]).1) && m[rv[i].1]
                        == rv[i].0
                &&& forall|k: Seq<u8>|
                    m.contains_key(k) ==> exists|i: int| 0 <= i < rv.len() && (#[trigger] rv[i]).1
                        == k
            }),
    {
        // one entry per record, in the order the fold reads them
        let mut recs: Vec<(i32, Vec<u8>)> = Vec::new();
        proof {
            assert(pairs_view(recs@) =~= Seq::<(i32, Seq<u8>)>::empty());
        }
        push_fund_entries(&mut recs, &self.confirmed_funding);
        push_fund_entries(&mut recs, &self.mempool_funding);
        push_spend_entries(&mut recs, &self.confirmed_spending);
        push_spend_entries(&mut recs, &self.mempool_spending);
        proof {
            lemma_fund_entry_list_concat(self@.confirmed_funding, self@.mempool_funding);
            lemma_spend_entry_list_concat(self@.confirmed_spending, self@.mempool_spending);
            assert(Seq::<(i32, Seq<u8>)>::empty() + fund_entry_list(self@.funding())
                =~= fund_entry_list(self@.funding()));
            assert(pairs_view(recs@) =~= entry_list(self@));
        }
        // fold them into a unique-txid list, a later record overriding
        let ghost es = entry_list(self@);
        let mut items: Vec<(i32, Vec<u8>)> = Vec::new();
        let n = recs.len();
        let mut i: usize = 0;
        proof {
            assert(es.skip(0) =~= es);
            assert(pairs_view(items@) =~= Seq::<(i32, Seq<u8>)>::empty());
            assert(map_of_items(pairs_view(items@)) =~= Map::<Seq<u8>, i32>::empty());
        }
        while i < n
            invariant
                n == recs.len(),
                i <= n,
                es == pairs_view(recs@),
                es.len() == n,
                unique_txids(pairs_view(items@)),
                map_of_entries(map_of_items(pairs_view(items@)), es.skip(i as int))
                    == map_of_entries(Map::<Seq<u8>, i32>::empty(), es),
            decreases n - i,
        {
            proof {
                assert(es[i as int] == (recs@[i as int].0, recs@[i as int].1@));
                assert(es.skip(i as int)[0] == es[i as int]);
                assert(es.skip(i as int).drop_first() =~= es.skip(i + 1));
            }
            let h = recs[i].0;
            let txid = recs[i].1.clone();
            proof {
                assert(txid@ =~= recs@[i as int].1@);
            }
            upsert_entry(&mut items, h, txid);
            i = i + 1;
        }
        proof {
            assert(es.skip(n as int).len() == 0);
        }
        let ghost ivv = pairs_view(items@);
        proof {
            assert(map_of_items(ivv) == history_map(self@));
        }
        // sort ascending by (height, txid)
        let sorted = sort_entries(items);
        proof {
            let rv = pairs_view(sorted@);
            let m = history_map(self@);
            lemma_map_of_items_at(ivv);
            assert forall|i: int|
                0 <= i < rv.len() implies m.contains_key((#[trigger] rv[i]).1) && m[rv[i].1]
                == rv[i].0 by {
                let j = choose|j: int| 0 <= j < ivv.len() && rv[i] == (#[trigger] ivv[j]);
                assert(m.contains_key(ivv[j].1) && m[ivv[j].1] == ivv[j].0);
            }
            assert forall|k: Seq<u8>| m.contains_key(k) implies exists|i: int|
                0 <= i < rv.len() && (#[trigger] rv[i]).1 == k by {
                let j = choose|j: int| 0 <= j < ivv.len() && (#[trigger] ivv[j]).1 == k;
                let i = choose|i: int| 0 <= i < rv.len() && (#[trigger] ivv[j]) == rv[i];
                assert(rv[i].1 == k);
            }
        }
        sorted
    }
}

/// The map a unique-txid entry list denotes.
pub open spec fn map_of_items(es: Seq<(i32, Seq<u8>)>) -> Map<Seq<u8>, i32> {
    Map::<Seq<u8>, i32>::new(
        |k: Seq<u8>| exists|i: int| 0 <= i < es.len() && (#[trigger] es[i]).1 == k,
        |k: Seq<u8>|
            {
                let i = choose|i: int| 0 <= i < es.len() && (#[trigger] es[i]).1 == k;
                es[i].0
            },
    )
}

/// Replace the entry with this txid, or add one.
fn upsert_entry(items: &mut Vec<(i32, Vec<u8>)>, height: i32, txid: Vec<u8>)
    requires
        unique_txids(pairs_view(old(items)@)),
    ensures
        unique_txids(pairs_view(final(items)@)),
        map_of_items(pairs_view(final(items)@)) == map_of_items(pairs_view(old(items)@)).insert(
            txid@,
            height,
        ),
{
    let ghost pre = pairs_view(items@);
    let ghost items0 = items@;
    let ghost hv = height;
    let ghost tv = txid@;
    let ghost target = map_of_items(pre).insert(tv, hv);
    let n = items.len();
    let mut i: usize = 0;
    while i < n
        invariant
            n == items.len(),
            i <= n,
            items@ == old(items)@,
            items0 == items@,
            pre == pairs_view(items@),
            unique_txids(pre),
            tv == txid@,
            hv == height,
            target == map_of_items(pre).insert(tv, hv),
            forall|j: int| 0 <= j < i ==> (#[trigger] items@[j]).1@ != tv,
        decreases n - i,
    {
        if bytes_eq(&items[i].1, &txid) {
            proof {
                assert(items0[i as int].1@ == tv);
            }
            items.remove(i);
            items.push((height, txid));
            proof {
                items0.remove_ensures(i as int);
                assert(items@.len() == items0.len());
                assert(forall|t: int| 0 <= t < i ==> items@[t] == items0[t]);
                assert(forall|t: int|
                    i <= t < items0.len() - 1 ==> items@[t] == items0[t + 1]);
                assert(items@[items0.len() - 1].0 == hv);
                assert(items@[items0.len() - 1].1@ == tv);
                let now = pairs_view(items@);
                assert(now.len() == pre.len());
                assert(forall|t: int|
                    0 <= t < now.len() ==> (#[trigger] now[t]) == (items@[t].0, items@[t].1@));
                assert(forall|t: int|
                    0 <= t < pre.len() ==> (#[trigger] pre[t]) == (items0[t].0, items0[t].1@));
                assert(forall|t: int| 0 <= t < i ==> (#[trigger] now[t]) == pre[t]);
                assert(forall|t: int| i <= t < pre.len() - 1 ==> (#[trigger] now[t]) == pre[t + 1]);
                assert(now[pre.len() - 1] == (hv, tv));
                assert(pre[i as int].1 == tv);
                assert forall|p: int, q: int|
                    0 <= p < q < now.len() implies (#[trigger] now[p]).1 != (#[trigger] now[q]).1 by {
                    let op: int = if p < i { p } else { p + 1 };
                    if q < now.len() - 1 {
                        let oq: int = if q < i { q } else { q + 1 };
                        assert(now[p] == pre[op] && now[q] == pre[oq]);
                    } else {
                        assert(now[q].1 == tv);
                        assert(now[p] == pre[op]);
                        assert(op != i);
                        assert(pre[op].1 != pre[i as int].1);
                    }
                }
                assert forall|k: Seq<u8>| true implies #[trigger] map_of_items(now).contains_key(k)
                    == target.contains_key(k) && (target.contains_key(k) ==> map_of_items(now)[k]
                    == target[k]) by {
                    lemma_map_of_items_at(now);
                    lemma_map_of_items_at(pre);
                    if k == tv {
                        assert(now[now.len() - 1].1 == k);
                        assert(map_of_items(now).contains_key(k));
                        assert(map_of_items(now)[k] == hv);
                    } else {
                        if map_of_items(now).contains_key(k) {
                            let w = choose|w: int| 0 <= w < now.len() && (#[trigger] now[w]).1 == k;
                            assert(w < now.len() - 1);
                            let ow: int = if w < i { w } else { w + 1 };
                            assert(now[w] == pre[ow]);
                            assert(pre[ow].1 == k);
                        }
                        if target.contains_key(k) {
                            let w = choose|w: int| 0 <= w < pre.len() && (#[trigger] pre[w]).1 == k;
                            assert(w != i);
                            let nw: int = if w < i { w } else { w - 1 };
                            assert(now[nw] == pre[w]);
                        }
                    }
                }
                assert(map_of_items(now) =~= target);
            }
            return ;
        }
        i = i + 1;
    }
    items.push((height, txid));
    proof {
        let now = pairs_view(items@);
        assert(forall|t: int|
            0 <= t < now.len() ==> (#[trigger] now[t]) == (items@[t].0, items@[t].1@));
        assert(forall|t: int|
            0 <= t < pre.len() ==> (#[trigger] pre[t]) == (items0[t].0, items0[t].1@));
        assert(now.len() == pre.len() + 1);
        assert(forall|t: int| 0 <= t < pre.len() ==> (#[trigger] now[t]) == pre[t]);
        assert(now[pre.len() as int] == (hv, tv));
        assert(forall|j: int| 0 <= j < pre.len() ==> (#[trigger] pre[j]).1 != tv);
        assert forall|p: int, q: int|
            0 <= p < q < now.len() implies (#[trigger] now[p]).1 != (#[trigger] now[q]).1 by {
            if q < now.len() - 1 {
                assert(now[p] == pre[p] && now[q] == pre[q]);
            } else {
                assert(now[q].1 == tv);
                assert(now[p] == pre[p]);
            }
        }
        assert forall|k: Seq<u8>| true implies #[trigger] map_of_items(now).contains_key(k)
            == target.contains_key(k) && (target.contains_key(k) ==> map_of_items(now)[k]
            == target[k]) by {
            lemma_map_of_items_at(now);
            lemma_map_of_items_at(pre);
            if k == tv {
                assert(now[now.len() - 1].1 == k);
            } else {
                if map_of_items(now).contains_key(k) {
                    let w = choose|w: int| 0 <= w < now.len() && (#[trigger] now[w]).1 == k;
                    assert(w < pre.len());
                    assert(now[w] == pre[w]);
                }
                if target.contains_key(k) {
                    let w = choose|w: int| 0 <= w < pre.len() && (#[trigger] pre[w]).1 == k;
                    assert(now[w] == pre[w]);
                }
            }
        }
        assert(map_of_items(now) =~= target);
    }
}

/// With unique txids, the map reads off each entry.
pub proof fn lemma_map_of_items_at(es: Seq<(i32, Seq<u8>)>)
    requires
        unique_txids(es),
    ensures
        forall|i: int|
            0 <= i < es.len() ==> map_of_items(es).contains_key((#[trigger] es[i]).1)
                && map_of_items(es)[es[i].1] == es[i].0,
{
    assert forall|i: int|
        0 <= i < es.len() implies map_of_items(es).contains_key((#[trigger] es[i]).1)
        && map_of_items(es)[es[i].1] == es[i].0 by {
        let k = es[i].1;
        assert(exists|j: int| 0 <= j < es.len() && (#[trigger] es[j]).1 == k);
        let w = choose|j: int| 0 <= j < es.len() && (#[trigger] es[j]).1 == k;
        assert(w == i);
    }
}

/// Sort unique-txid entries ascending by `(height, txid)`.
#[verifier::rlimit(100)]
fn sort_entries(items: Vec<(i32, Vec<u8>)>) -> (r: Vec<(i32, Vec<u8>)>)
    requires
        unique_txids(pairs_view(items@)),
    ensures
        ({
            let rv = pairs_view(r@);
            let iv = pairs_view(items@);
            &&& forall|i: int, j: int|
                0 <= i < j < rv.len() ==> hist_lt(#[trigger] rv[i], #[trigger] rv[j])
            &&& unique_txids(rv)
            &&& forall|i: int| 0 <= i < rv.len() ==> iv.contains(#[trigger] rv[i])
            &&& forall|j: int| 0 <= j < iv.len() ==> rv.contains(#[trigger] iv[j])
        }),
{
    let mut rest = items;
    let mut out: Vec<(i32, Vec<u8>)> = Vec::new();
    let ghost iv = pairs_view(rest@);
    proof {
        assert(pairs_view(out@) =~= Seq::<(i32, Seq<u8>)>::empty());
        assert(pairs_view(out@) + pairs_view(rest@) =~= pairs_view(rest@));
        assert(forall|i: int| 0 <= i < iv.len() ==> iv.contains(#[trigger] iv[i]));
    }
    while rest.len() > 0
        invariant
            unique_txids(pairs_view(out@) + pairs_view(rest@)),
            forall|p: int, q: int|
                0 <= p < q < pairs_view(out@).len() ==> hist_lt(
                    #[trigger] pairs_view(out@)[p],
                    #[trigger] pairs_view(out@)[q],
                ),
            forall|p: int, q: int|
                0 <= p < pairs_view(out@).len() && 0 <= q < pairs_view(rest@).len() ==> hist_lt(
                    #[trigger] pairs_view(out@)[p],
                    #[trigger] pairs_view(rest@)[q],
                ),
            forall|i: int|
                0 <= i < pairs_view(out@).len() ==> iv.contains(#[trigger] pairs_view(out@)[i]),
            forall|i: int|
                0 <= i < pairs_view(rest@).len() ==> iv.contains(#[trigger] pairs_view(rest@)[i]),
            forall|j: int|
                0 <= j < iv.len() ==> pairs_view(out@).contains(#[trigger] iv[j]) || pairs_view(
                    rest@,
                ).contains(iv[j]),
        decreases rest.len(),
    {
        // find the least remaining entry
        proof {
            let ov0 = pairs_view(out@);
            let rv0 = pairs_view(rest@);
            let comb = ov0 + rv0;
            assert forall|p: int, q: int|
                0 <= p < q < rv0.len() implies (#[trigger] rv0[p]).1 != (#[trigger] rv0[q]).1 by {
                assert(comb[ov0.len() + p] == rv0[p]);
                assert(comb[ov0.len() + q] == rv0[q]);
            }
        }
        let n = rest.len();
        let mut mi: usize = 0;
        let mut j: usize = 1;
        while j < n
            invariant
                n == rest.len(),
                n > 0,
                mi < j <= n,
                unique_txids(pairs_view(rest@)),
                forall|q: int|
                    0 <= q < j ==> q == mi || hist_lt(
                        #[trigger] pairs_view(rest@)[mi as int],
                        #[trigger] pairs_view(rest@)[q],
                    ),
            decreases n - j,
        {
            proof {
                assert(pairs_view(rest@)[j as int] == (rest@[j as int].0, rest@[j as int].1@));
                assert(pairs_view(rest@)[mi as int] == (rest@[mi as int].0, rest@[mi as int].1@));
            }
            let smaller = rest[j].0 < rest[mi].0 || (rest[j].0 == rest[mi].0 && crate::bytes::lex_less(
                &rest[j].1,
                &rest[mi].1,
            ));
            if smaller {
                proof {
                    let rv = pairs_view(rest@);
                    assert(hist_lt(rv[j as int], rv[mi as int]));
                    assert forall|q: int| 0 <= q < j implies q == j as int || hist_lt(
                        rv[j as int],
                        #[trigger] rv[q],
                    ) by {
                        if q != mi && q != j {
                            lemma_hist_lt_trans(rv[j as int], rv[mi as int], rv[q]);
                        }
                    }
                }
                mi = j;
            } else {
                proof {
                    let rv = pairs_view(rest@);
                    assert(rv[mi as int].1 != rv[j as int].1);
                    lemma_hist_lt_connected(rv[mi as int], rv[j as int]);
                    assert(hist_lt(rv[mi as int], rv[j as int]));
                }
            }
            j = j + 1;
        }
        let ghost rv = pairs_view(rest@);
        let ghost ov = pairs_view(out@);
        let picked = rest.remove(mi);
        out.push(picked);
        proof {
            let now_out = pairs_view(out@);
            let now_rest = pairs_view(rest@);
            assert(now_out.len() == ov.len() + 1);
            assert(now_out[ov.len() as int] == rv[mi as int]);
            assert(forall|p: int| 0 <= p < ov.len() ==> now_out[p] == ov[p]);
            assert(now_rest.len() == rv.len() - 1);
            assert(forall|q: int|
                0 <= q < now_rest.len() ==> now_rest[q] == (if q < mi {
                    rv[q]
                } else {
                    rv[q + 1]
                }));
            // the old combined list and the new one hold the same entries
            assert(forall|p: int|
                0 <= p < (ov + rv).len() ==> (ov + rv)[p] == (if p < ov.len() {
                    ov[p]
                } else {
                    rv[p - ov.len()]
                }));
            assert forall|p: int, q: int|
                0 <= p < q < (now_out + now_rest).len() implies (#[trigger] (now_out
                + now_rest)[p]).1 != (#[trigger] (now_out + now_rest)[q]).1 by {
                let old_comb = ov + rv;
                let f = |x: int|
                    if x < ov.len() {
                        x
                    } else if x == ov.len() {
                        ov.len() + mi
                    } else if x <= ov.len() + mi {
                        x - 1
                    } else {
                        x
                    };
                assert((now_out + now_rest)[p] == old_comb[f(p)]);
                assert((now_out + now_rest)[q] == old_comb[f(q)]);
                assert(f(p) != f(q));
                if f(p) < f(q) {
                    assert(old_comb[f(p)].1 != old_comb[f(q)].1);
                } else {
                    assert(old_comb[f(q)].1 != old_comb[f(p)].1);
                }
            }
            assert forall|j2: int|
                0 <= j2 < iv.len() implies now_out.contains(#[trigger] iv[j2])
                || now_rest.contains(iv[j2]) by {
                if ov.contains(iv[j2]) {
                    let w = choose|w: int| 0 <= w < ov.len() && ov[w] == iv[j2];
                    assert(now_out[w] == iv[j2]);
                    assert(now_out.contains(iv[j2]));
                } else {
                    assert(rv.contains(iv[j2]));
                    let w = choose|w: int| 0 <= w < rv.len() && rv[w] == iv[j2];
                    if w == mi {
                        assert(now_out[ov.len() as int] == iv[j2]);
                        assert(now_out.contains(iv[j2]));
                    } else if w < mi {
                        assert(now_rest[w] == iv[j2]);
                        assert(now_rest.contains(iv[j2]));
                    } else {
                        assert(now_rest[w - 1] == iv[j2]);
                        assert(now_rest.contains(iv[j2]));
                    }
                }
            }
        }
    }
    proof {
        assert(pairs_view(rest@).len() == 0);
    }
    out
}

/// Concatenated funding lists contribute their entries one after the other.
pub proof fn lemma_fund_entry_list_concat(a: Seq<FundingOutputV>, b: Seq<FundingOutputV>)
    ensures
        fund_entry_list(a + b) == fund_entry_list(a) + fund_entry_list(b),
    decreases a.len(),
{
    if a.len() == 0 {
        assert(a + b =~= b);
        assert(Seq::<(i32, Seq<u8>)>::empty() + fund_entry_list(b) =~= fund_entry_list(b));
    } else {
        assert((a + b).drop_first() =~= a.drop_first() + b);
        lemma_fund_entry_list_concat(a.drop_first(), b);
        assert(fund_entry_list(a + b) =~= fund_entry_list(a) + fund_entry_list(b));
    }
}

/// Concatenated spending lists contribute their entries one after the other.
pub proof fn lemma_spend_entry_list_concat(a: Seq<SpendingInputV>, b: Seq<SpendingInputV>)
    ensures
        spend_entry_list(a + b) == spend_entry_list(a) + spend_entry_list(b),
    decreases a.len(),
{
    if a.len() == 0 {
        assert(a + b =~= b);
        assert(Seq::<(i32, Seq<u8>)>::empty() + spend_entry_list(b) =~= spend_entry_list(b));
    } else {
        assert((a + b).drop_first() =~= a.drop_first() + b);
        lemma_spend_entry_list_concat(a.drop_first(), b);
        assert(spend_entry_list(a + b) =~= spend_entry_list(a) + spend_entry_list(b));
    }
}


// ---------------------------------------------------------------------------
// UTXO set
// ---------------------------------------------------------------------------

/// Funding records folded into an outpoint-keyed map: a later record with
/// the same outpoint wins.
pub open spec fn outs_map_of(
    m: Map<(Seq<u8>, u32), FundingOutputV>,
    fs: Seq<FundingOutputV>,
) -> Map<(Seq<u8>, u32), FundingOutputV>
    decreases fs.len(),
{
    if fs.len() == 0 {
        m
    } else {
        outs_map_of(m.insert((fs[0].txn_id, fs[0].output_index), fs[0]), fs.drop_first())
    }
}

/// Spending records folded as removals of the outpoints they consume.
pub open spec fn outs_map_minus(
    m: Map<(Seq<u8>, u32), FundingOutputV>,
    ss: Seq<SpendingInputV>,
) -> Map<(Seq<u8>, u32), FundingOutputV>
    decreases ss.len(),
{
    if ss.len() == 0 {
        m
    } else {
        outs_map_minus(m.remove((ss[0].funding_txid, ss[0].funding_vout)), ss.drop_first())
    }
}

/// The funding outpoints of a status, as a map.
pub open spec fn funding_map(st: StatusV) -> Map<(Seq<u8>, u32), FundingOutputV> {
    outs_map_of(Map::<(Seq<u8>, u32), FundingOutputV>::empty(), st.funding())
}

/// What is left unspent: every funding outpoint no spending record
/// consumes.
pub open spec fn unspent_map(st: StatusV) -> Map<(Seq<u8>, u32), FundingOutputV> {
    outs_map_minus(funding_map(st), st.spending())
}

/// Whether a spending record consumes outpoint `k`.
pub open spec fn spends_key(ss: Seq<SpendingInputV>, k: (Seq<u8>, u32)) -> bool {
    exists|i: int|
        0 <= i < ss.len() && ((#[trigger] ss[i]).funding_txid, ss[i].funding_vout) == k
}

/// Removing the spent outpoints leaves exactly the unspent ones.
pub proof fn lemma_outs_map_minus_dom(
    m: Map<(Seq<u8>, u32), FundingOutputV>,
    ss: Seq<SpendingInputV>,
)
    ensures
        forall|k: (Seq<u8>, u32)|
            #[trigger] outs_map_minus(m, ss).contains_key(k) <==> (m.contains_key(k)
                && !spends_key(ss, k)),
        forall|k: (Seq<u8>, u32)|
            outs_map_minus(m, ss).contains_key(k) ==> #[trigger] outs_map_minus(m, ss)[k] == m[k],
    decreases ss.len(),
{
    if ss.len() > 0 {
        let k0 = (ss[0].funding_txid, ss[0].funding_vout);
        lemma_outs_map_minus_dom(m.remove(k0), ss.drop_first());
        assert forall|k: (Seq<u8>, u32)|
            #[trigger] outs_map_minus(m, ss).contains_key(k) <==> (m.contains_key(k)
                && !spends_key(ss, k)) by {
            assert(outs_map_minus(m, ss) == outs_map_minus(m.remove(k0), ss.drop_first()));
            assert(spends_key(ss, k) <==> (k == k0 || spends_key(ss.drop_first(), k))) by {
                if spends_key(ss, k) {
                    let w = choose|i: int|
                        0 <= i < ss.len() && ((#[trigger] ss[i]).funding_txid, ss[i].funding_vout)
                            == k;
                    if w > 0 {
                        assert(ss.drop_first()[w - 1] == ss[w]);
                        assert(spends_key(ss.drop_first(), k));
                    } else {
                        assert(k == k0);
                    }
                }
                if spends_key(ss.drop_first(), k) {
                    let w = choose|i: int|
                        0 <= i < ss.drop_first().len() && ((#[trigger] ss.drop_first()[
                        i]).funding_txid, ss.drop_first()[i].funding_vout) == k;
                    assert(ss[w + 1] == ss.drop_first()[w]);
                    assert(spends_key(ss, k));
                }
                if k == k0 {
                    assert((ss[0].funding_txid, ss[0].funding_vout) == k);
                    assert(spends_key(ss, k));
                }
            }
            assert(outs_map_minus(m.remove(k0), ss.drop_first()).contains_key(k) <==> (m.remove(
                k0,
            ).contains_key(k) && !spends_key(ss.drop_first(), k)));
        }
        assert forall|k: (Seq<u8>, u32)|
            outs_map_minus(m, ss).contains_key(k) implies #[trigger] outs_map_minus(m, ss)[k]
            == m[k] by {
            assert(outs_map_minus(m, ss) == outs_map_minus(m.remove(k0), ss.drop_first()));
            assert(outs_map_minus(m.remove(k0), ss.drop_first())[k] == m.remove(k0)[k]);
            assert(m.contains_key(k) && !spends_key(ss, k));
            assert(k != k0) by {
                if k == k0 {
                    assert((ss[0].funding_txid, ss[0].funding_vout) == k);
                    assert(spends_key(ss, k));
                }
            }
        }
    }
}

/// Law: the unspent outpoints and the spent outpoints split the funding
/// outpoints in two, provided every spending record consumes a funding
/// outpoint (which the engine's collision filter guarantees).
pub proof fn lemma_unspent_partition(st: StatusV)
    requires
        forall|i: int|
            0 <= i < st.spending().len() ==> funding_map(st).contains_key(
                ((#[trigger] st.spending()[i]).funding_txid, st.spending()[i].funding_vout),
            ),
    ensures
        forall|k: (Seq<u8>, u32)|
            #[trigger] funding_map(st).contains_key(k) <==> (unspent_map(st).contains_key(k)
                || spends_key(st.spending(), k)),
        forall|k: (Seq<u8>, u32)|
            !(#[trigger] unspent_map(st).contains_key(k) && spends_key(st.spending(), k)),
{
    lemma_outs_map_minus_dom(funding_map(st), st.spending());
    assert forall|k: (Seq<u8>, u32)|
        #[trigger] funding_map(st).contains_key(k) <==> (unspent_map(st).contains_key(k)
            || spends_key(st.spending(), k)) by {
        if spends_key(st.spending(), k) {
            let w = choose|i: int|
                0 <= i < st.spending().len() && ((#[trigger] st.spending()[i]).funding_txid,
                st.spending()[i].funding_vout) == k;
            assert(funding_map(st).contains_key(k));
        }
    }
}

/// No two records name the same outpoint.
pub open spec fn unique_outpoints(fs: Seq<FundingOutputV>) -> bool {
    forall|i: int, j: int|
        0 <= i < j < fs.len() ==> ((#[trigger] fs[i]).txn_id, fs[i].output_index) != ((
        #[trigger] fs[j]).txn_id, fs[j].output_index)
}

/// The map a unique-outpoint record list denotes.
pub open spec fn outs_of_items(es: Seq<FundingOutputV>) -> Map<(Seq<u8>, u32), FundingOutputV> {
    Map::<(Seq<u8>, u32), FundingOutputV>::new(
        |k: (Seq<u8>, u32)|
            exists|i: int|
                0 <= i < es.len() && ((#[trigger] es[i]).txn_id, es[i].output_index) == k,
        |k: (Seq<u8>, u32)|
            {
                let i = choose|i: int|
                    0 <= i < es.len() && ((#[trigger] es[i]).txn_id, es[i].output_index) == k;
                es[i]
            },
    )
}

/// With unique outpoints, the map reads off each record.
pub proof fn lemma_outs_of_items_at(es: Seq<FundingOutputV>)
    requires
        unique_outpoints(es),
    ensures
        forall|i: int|
            0 <= i < es.len() ==> outs_of_items(es).contains_key(
                ((#[trigger] es[i]).txn_id, es[i].output_index),
            ) && outs_of_items(es)[(es[i].txn_id, es[i].output_index)] == es[i],
{
    assert forall|i: int|
        0 <= i < es.len() implies outs_of_items(es).contains_key(
        ((#[trigger] es[i]).txn_id, es[i].output_index),
    ) && outs_of_items(es)[(es[i].txn_id, es[i].output_index)] == es[i] by {
        let k = (es[i].txn_id, es[i].output_index);
        assert(exists|j: int|
            0 <= j < es.len() && ((#[trigger] es[j]).txn_id, es[j].output_index) == k);
        let w = choose|j: int|
            0 <= j < es.len() && ((#[trigger] es[j]).txn_id, es[j].output_index) == k;
        assert(w == i);
    }
}


/// Replace the record with this outpoint, or add one.
fn upsert_funding(items: &mut Vec<FundingOutput>, record: FundingOutput)
    requires
        unique_outpoints(fundings_view(old(items)@)),
    ensures
        unique_outpoints(fundings_view(final(items)@)),
        outs_of_items(fundings_view(final(items)@)) == outs_of_items(
            fundings_view(old(items)@),
        ).insert((record@.txn_id, record@.output_index), record@),
{
    let ghost pre = fundings_view(items@);
    let ghost items0 = items@;
    let ghost rv = record@;
    let ghost kv = (record@.txn_id, record@.output_index);
    let ghost target = outs_of_items(pre).insert(kv, rv);
    let n = items.len();
    let mut i: usize = 0;
    while i < n
        invariant
            n == items.len(),
            i <= n,
            items@ == old(items)@,
            items0 == items@,
            pre == fundings_view(items@),
            unique_outpoints(pre),
            rv == record@,
            kv == (record@.txn_id, record@.output_index),
            target == outs_of_items(pre).insert(kv, rv),
            forall|j: int|
                0 <= j < i ==> ((#[trigger] pre[j]).txn_id, pre[j].output_index) != kv,
        decreases n - i,
    {
        proof {
            assert(pre[i as int] == items@[i as int]@);
        }
        let same = bytes_eq(&items[i].txn_id, &record.txn_id) && items[i].output_index
            == record.output_index;
        if same {
            proof {
                assert((pre[i as int].txn_id, pre[i as int].output_index) == kv);
            }
            items.remove(i);
            items.push(record);
            proof {
                items0.remove_ensures(i as int);
                let now = fundings_view(items@);
                assert(now.len() == pre.len());
                assert(forall|t: int|
                    0 <= t < now.len() ==> (#[trigger] now[t]) == items@[t]@);
                assert(forall|t: int|
                    0 <= t < pre.len() ==> (#[trigger] pre[t]) == items0[t]@);
                assert(forall|t: int| 0 <= t < i ==> (#[trigger] now[t]) == pre[t]);
                assert(forall|t: int| i <= t < pre.len() - 1 ==> (#[trigger] now[t]) == pre[t + 1]);
                assert(now[pre.len() - 1] == rv);
                assert forall|p: int, q: int|
                    0 <= p < q < now.len() implies ((#[trigger] now[p]).txn_id,
                now[p].output_index) != ((#[trigger] now[q]).txn_id, now[q].output_index) by {
                    let op: int = if p < i { p } else { p + 1 };
                    if q < now.len() - 1 {
                        let oq: int = if q < i { q } else { q + 1 };
                        assert(now[p] == pre[op] && now[q] == pre[oq]);
                    } else {
                        assert((now[q].txn_id, now[q].output_index) == kv);
                        assert(now[p] == pre[op]);
                        assert(op != i);
                        assert((pre[op].txn_id, pre[op].output_index) != (pre[i as int].txn_id,
                        pre[i as int].output_index));
                    }
                }
                assert forall|k: (Seq<u8>, u32)| true implies #[trigger] outs_of_items(
                    now,
                ).contains_key(k) == target.contains_key(k) && (target.contains_key(k)
                    ==> outs_of_items(now)[k] == target[k]) by {
                    lemma_outs_of_items_at(now);
                    lemma_outs_of_items_at(pre);
                    if k == kv {
                        assert((now[now.len() - 1].txn_id, now[now.len() - 1].output_index) == k);
                        assert(outs_of_items(now).contains_key(k));
                        assert(outs_of_items(now)[k] == rv);
                    } else {
                        if outs_of_items(now).contains_key(k) {
                            let w = choose|w: int|
                                0 <= w < now.len() && ((#[trigger] now[w]).txn_id,
                            now[w].output_index) == k;
                            assert(w < now.len() - 1);
                            let ow: int = if w < i { w } else { w + 1 };
                            assert(now[w] == pre[ow]);
                        }
                        if target.contains_key(k) {
                            let w = choose|w: int|
                                0 <= w < pre.len() && ((#[trigger] pre[w]).txn_id,
                            pre[w].output_index) == k;
                            assert(w != i);
                            let nw: int = if w < i { w } else { w - 1 };
                            assert(now[nw] == pre[w]);
                        }
                    }
                }
                assert(outs_of_items(now) =~= target);
            }
            return ;
        }
        i = i + 1;
    }
    items.push(record);
    proof {
        let now = fundings_view(items@);
        assert(forall|t: int| 0 <= t < now.len() ==> (#[trigger] now[t]) == items@[t]@);
        assert(forall|t: int| 0 <= t < pre.len() ==> (#[trigger] pre[t]) == items0[t]@);
        assert(now.len() == pre.len() + 1);
        assert(forall|t: int| 0 <= t < pre.len() ==> (#[trigger] now[t]) == pre[t]);
        assert(now[pre.len() as int] == rv);
        assert forall|p: int, q: int|
            0 <= p < q < now.len() implies ((#[trigger] now[p]).txn_id, now[p].output_index) != ((
        #[trigger] now[q]).txn_id, now[q].output_index) by {
            if q < now.len() - 1 {
                assert(now[p] == pre[p] && now[q] == pre[q]);
            } else {
                assert((now[q].txn_id, now[q].output_index) == kv);
                assert(now[p] == pre[p]);
            }
        }
        assert forall|k: (Seq<u8>, u32)| true implies #[trigger] outs_of_items(now).contains_key(k)
            == target.contains_key(k) && (target.contains_key(k) ==> outs_of_items(now)[k]
            == target[k]) by {
            lemma_outs_of_items_at(now);
            lemma_outs_of_items_at(pre);
            if k == kv {
                assert((now[now.len() - 1].txn_id, now[now.len() - 1].output_index) == k);
            } else {
                if outs_of_items(now).contains_key(k) {
                    let w = choose|w: int|
                        0 <= w < now.len() && ((#[trigger] now[w]).txn_id, now[w].output_index)
                            == k;
                    assert(w < pre.len());
                    assert(now[w] == pre[w]);
                }
                if target.contains_key(k) {
                    let w = choose|w: int|
                        0 <= w < pre.len() && ((#[trigger] pre[w]).txn_id, pre[w].output_index)
                            == k;
                    assert(now[w] == pre[w]);
                }
            }
        }
        assert(outs_of_items(now) =~= target);
    }
}

/// Drop the record with this outpoint, if it is there.
fn remove_funding(items: &mut Vec<FundingOutput>, txid: &Vec<u8>, vout: u32)
    requires
        unique_outpoints(fundings_view(old(items)@)),
    ensures
        unique_outpoints(fundings_view(final(items)@)),
        outs_of_items(fundings_view(final(items)@)) == outs_of_items(
            fundings_view(old(items)@),
        ).remove((txid@, vout)),
{
    let ghost pre = fundings_view(items@);
    let ghost items0 = items@;
    let ghost kv = (txid@, vout);
    let ghost target = outs_of_items(pre).remove(kv);
    let n = items.len();
    let mut i: usize = 0;
    while i < n
        invariant
            n == items.len(),
            i <= n,
            items@ == old(items)@,
            items0 == items@,
            pre == fundings_view(items@),
            unique_outpoints(pre),
            kv == (txid@, vout),
            target == outs_of_items(pre).remove(kv),
            forall|j: int|
                0 <= j < i ==> ((#[trigger] pre[j]).txn_id, pre[j].output_index) != kv,
        decreases n - i,
    {
        proof {
            assert(pre[i as int] == items@[i as int]@);
        }
        let same = bytes_eq(&items[i].txn_id, txid) && items[i].output_index == vout;
        if same {
            proof {
                assert((pre[i as int].txn_id, pre[i as int].output_index) == kv);
            }
            items.remove(i);
            proof {
                items0.remove_ensures(i as int);
                let now = fundings_view(items@);
                assert(now.len() == pre.len() - 1);
                assert(forall|t: int|
                    0 <= t < now.len() ==> (#[trigger] now[t]) == items@[t]@);
                assert(forall|t: int|
                    0 <= t < pre.len() ==> (#[trigger] pre[t]) == items0[t]@);
                assert(forall|t: int| 0 <= t < i ==> (#[trigger] now[t]) == pre[t]);
                assert(forall|t: int| i <= t < now.len() ==> (#[trigger] now[t]) == pre[t + 1]);
                assert forall|p: int, q: int|
                    0 <= p < q < now.len() implies ((#[trigger] now[p]).txn_id,
                now[p].output_index) != ((#[trigger] now[q]).txn_id, now[q].output_index) by {
                    let op: int = if p < i { p } else { p + 1 };
                    let oq: int = if q < i { q } else { q + 1 };
                    assert(now[p] == pre[op] && now[q] == pre[oq]);
                }
                assert forall|k: (Seq<u8>, u32)| true implies #[trigger] outs_of_items(
                    now,
                ).contains_key(k) == target.contains_key(k) && (target.contains_key(k)
                    ==> outs_of_items(now)[k] == target[k]) by {
                    lemma_outs_of_items_at(now);
                    lemma_outs_of_items_at(pre);
                    if k != kv {
                        if outs_of_items(now).contains_key(k) {
                            let w = choose|w: int|
                                0 <= w < now.len() && ((#[trigger] now[w]).txn_id,
                            now[w].output_index) == k;
                            let ow: int = if w < i { w } else { w + 1 };
                            assert(now[w] == pre[ow]);
                        }
                        if target.contains_key(k) {
                            let w = choose|w: int|
                                0 <= w < pre.len() && ((#[trigger] pre[w]).txn_id,
                            pre[w].output_index) == k;
                            assert(w != i);
                            let nw: int = if w < i { w } else { w - 1 };
                            assert(now[nw] == pre[w]);
                        }
                    } else {
                        if outs_of_items(now).contains_key(k) {
                            let w = choose|w: int|
                                0 <= w < now.len() && ((#[trigger] now[w]).txn_id,
                            now[w].output_index) == k;
                            let ow: int = if w < i { w } else { w + 1 };
                            assert(now[w] == pre[ow]);
                            assert(ow != i);
                            assert((pre[ow].txn_id, pre[ow].output_index) != (pre[i as int].txn_id,
                            pre[i as int].output_index));
                            assert(false);
                        }
                    }
                }
                assert(outs_of_items(now) =~= target);
            }
            return ;
        }
        i = i + 1;
    }
    proof {
        assert forall|k: (Seq<u8>, u32)| true implies #[trigger] outs_of_items(
            pre,
        ).contains_key(k) == target.contains_key(k) && (target.contains_key(k)
            ==> outs_of_items(pre)[k] == target[k]) by {
            if k == kv {
                if outs_of_items(pre).contains_key(k) {
                    let w = choose|w: int|
                        0 <= w < pre.len() && ((#[trigger] pre[w]).txn_id, pre[w].output_index)
                            == k;
                    assert(false);
                }
            }
        }
        assert(outs_of_items(pre) =~= target);
    }
}

/// Sort unique-outpoint records ascending by signed height, so mempool
/// records (synthetic heights -1 and 0) come before confirmed ones.
#[verifier::rlimit(100)]
fn sort_fundings(items: Vec<FundingOutput>) -> (r: Vec<FundingOutput>)
    requires
        unique_outpoints(fundings_view(items@)),
    ensures
        ({
            let rv = fundings_view(r@);
            let iv = fundings_view(items@);
            &&& forall|i: int, j: int|
                0 <= i < j < rv.len() ==> height_signed((#[trigger] rv[i]).height)
                    <= height_signed((#[trigger] rv[j]).height)
            &&& unique_outpoints(rv)
            &&& forall|i: int| 0 <= i < rv.len() ==> iv.contains(#[trigger] rv[i])
            &&& forall|j: int| 0 <= j < iv.len() ==> rv.contains(#[trigger] iv[j])
        }),
{
    let mut rest = items;
    let mut out: Vec<FundingOutput> = Vec::new();
    let ghost iv = fundings_view(rest@);
    proof {
        assert(fundings_view(out@) =~= Seq::<FundingOutputV>::empty());
        assert(fundings_view(out@) + fundings_view(rest@) =~= fundings_view(rest@));
        assert(forall|i: int| 0 <= i < iv.len() ==> iv.contains(#[trigger] iv[i]));
    }
    while rest.len() > 0
        invariant
            unique_outpoints(fundings_view(out@) + fundings_view(rest@)),
            forall|p: int, q: int|
                0 <= p < q < fundings_view(out@).len() ==> height_signed((
                #[trigger] fundings_view(out@)[p]).height) <= height_signed((
                #[trigger] fundings_view(out@)[q]).height),
            forall|p: int, q: int|
                0 <= p < fundings_view(out@).len() && 0 <= q < fundings_view(rest@).len()
                    ==> height_signed((#[trigger] fundings_view(out@)[p]).height)
                    <= height_signed((#[trigger] fundings_view(rest@)[q]).height),
            forall|i: int|
                0 <= i < fundings_view(out@).len() ==> iv.contains(
                    #[trigger] fundings_view(out@)[i],
                ),
            forall|i: int|
                0 <= i < fundings_view(rest@).len() ==> iv.contains(
                    #[trigger] fundings_view(rest@)[i],
                ),
            forall|j: int|
                0 <= j < iv.len() ==> fundings_view(out@).contains(#[trigger] iv[j])
                    || fundings_view(rest@).contains(iv[j]),
        decreases rest.len(),
    {
        let n = rest.len();
        let mut mi: usize = 0;
        let mut j: usize = 1;
        while j < n
            invariant
                n == rest.len(),
                n > 0,
                mi < j <= n,
                forall|q: int|
                    0 <= q < j ==> height_signed(
                        (#[trigger] fundings_view(rest@)[mi as int]).height,
                    ) <= height_signed(fundings_view(rest@)[q].height),
            decreases n - j,
        {
            proof {
                assert(fundings_view(rest@)[j as int] == rest@[j as int]@);
                assert(fundings_view(rest@)[mi as int] == rest@[mi as int]@);
            }
            if height_to_i32(rest[j].height) < height_to_i32(rest[mi].height) {
                mi = j;
            }
            j = j + 1;
        }
        let ghost rv = fundings_view(rest@);
        let ghost ov = fundings_view(out@);
        let picked = rest.remove(mi);
        out.push(picked);
        proof {
            let now_out = fundings_view(out@);
            let now_rest = fundings_view(rest@);
            assert(now_out.len() == ov.len() + 1);
            assert(now_out[ov.len() as int] == rv[mi as int]);
            assert(forall|p: int| 0 <= p < ov.len() ==> (#[trigger] now_out[p]) == ov[p]);
            assert(now_rest.len() == rv.len() - 1);
            assert(forall|q: int|
                0 <= q < now_rest.len() ==> (#[trigger] now_rest[q]) == (if q < mi {
                    rv[q]
                } else {
                    rv[q + 1]
                }));
            assert(forall|p: int|
                0 <= p < (ov + rv).len() ==> (#[trigger] (ov + rv)[p]) == (if p < ov.len() {
                    ov[p]
                } else {
                    rv[p - ov.len()]
                }));
            assert forall|p: int, q: int|
                0 <= p < q < (now_out + now_rest).len() implies ((#[trigger] (now_out
            + now_rest)[p]).txn_id, (now_out + now_rest)[p].output_index) != ((#[trigger] (now_out
            + now_rest)[q]).txn_id, (now_out + now_rest)[q].output_index) by {
                let old_comb = ov + rv;
                let f = |x: int|
                    if x < ov.len() {
                        x
                    } else if x == ov.len() {
                        ov.len() + mi
                    } else if x <= ov.len() + mi {
                        x - 1
                    } else {
                        x
                    };
                assert((now_out + now_rest)[p] == old_comb[f(p)]);
                assert((now_out + now_rest)[q] == old_comb[f(q)]);
                assert(f(p) != f(q));
                if f(p) < f(q) {
                    assert((old_comb[f(p)].txn_id, old_comb[f(p)].output_index) != (
                    old_comb[f(q)].txn_id, old_comb[f(q)].output_index));
                } else {
                    assert((old_comb[f(q)].txn_id, old_comb[f(q)].output_index) != (
                    old_comb[f(p)].txn_id, old_comb[f(p)].output_index));
                }
            }
            assert forall|j2: int|
                0 <= j2 < iv.len() implies now_out.contains(#[trigger] iv[j2])
                || now_rest.contains(iv[j2]) by {
                if ov.contains(iv[j2]) {
                    let w = choose|w: int| 0 <= w < ov.len() && ov[w] == iv[j2];
                    assert(now_out[w] == iv[j2]);
                    assert(now_out.contains(iv[j2]));
                } else {
                    assert(rv.contains(iv[j2]));
                    let w = choose|w: int| 0 <= w < rv.len() && rv[w] == iv[j2];
                    if w == mi {
                        assert(now_out[ov.len() as int] == iv[j2]);
                        assert(now_out.contains(iv[j2]));
                    } else if w < mi {
                        assert(now_rest[w] == iv[j2]);
                        assert(now_rest.contains(iv[j2]));
                    } else {
                        assert(now_rest[w - 1] == iv[j2]);
                        assert(now_rest.contains(iv[j2]));
                    }
                }
            }
        }
    }
    proof {
        assert(fundings_view(rest@).len() == 0);
    }
    out
}

impl Status {
    /// The funding outputs no spending record consumes, ascending by
    /// signed height: a record with an unconfirmed parent (-1) first, then
    /// other mempool records (0), then confirmed heights.  A spending
    /// record whose outpoint matches no funding record removes nothing.
    pub fn unspent(&self) -> (r: Vec<FundingOutput>)
        ensures
            ({
                let rv = fundings_view(r@);
                let m = unspent_map(self@);
                &&& forall|i: int, j: int|
                    0 <= i < j < rv.len() ==> height_signed((#[trigger] rv[i]).height)
                        <= height_signed((#[trigger] rv[j]).height)
                &&& unique_outpoints(rv)
                &&& forall|i: int|
                    0 <= i < rv.len() ==> m.contains_key(
                        ((#[trigger] rv[i]).txn_id, rv[i].output_index),
                    ) && m[(rv[i].txn_id, rv[i].output_index)] == rv[i]
                &&& forall|k: (Seq<u8>, u32)|
                    m.contains_key(k) ==> exists|i: int|
                        0 <= i < rv.len() && ((#[trigger] rv[i]).txn_id, rv[i].output_index) == k
            }),
    {
        let ghost st = self@;
        let mut items: Vec<FundingOutput> = Vec::new();
        proof {
            assert(fundings_view(items@) =~= Seq::<FundingOutputV>::empty());
            assert(outs_of_items(fundings_view(items@)) =~= Map::<
                (Seq<u8>, u32),
                FundingOutputV,
            >::empty());
        }
        // fold in the funding records: confirmed, then mempool
        let ghost af = st.funding();
        let nc = self.confirmed_funding.len();
        let mut i: usize = 0;
        proof {
            assert(af.skip(0) =~= af);
        }
        while i < nc
            invariant
                nc == self.confirmed_funding.len(),
                i <= nc,
                af == self@.funding(),
                af.len() == nc + self@.mempool_funding.len(),
                unique_outpoints(fundings_view(items@)),
                outs_map_of(outs_of_items(fundings_view(items@)), af.skip(i as int))
                    == funding_map(self@),
            decreases nc - i,
        {
            proof {
                assert(af[i as int] == self@.confirmed_funding[i as int]);
                assert(self@.confirmed_funding[i as int] == self.confirmed_funding@[i as int]@);
                assert(af.skip(i as int)[0] == af[i as int]);
                assert(af.skip(i as int).drop_first() =~= af.skip(i + 1));
            }
            let record = self.confirmed_funding[i].duplicate();
            upsert_funding(&mut items, record);
            i = i + 1;
        }
        let nm = self.mempool_funding.len();
        let mut i2: usize = 0;
        while i2 < nm
            invariant
                nc == self.confirmed_funding.len(),
                nm == self.mempool_funding.len(),
                i2 <= nm,
                af == self@.funding(),
                af.len() == nc + nm,
                unique_outpoints(fundings_view(items@)),
                outs_map_of(outs_of_items(fundings_view(items@)), af.skip(nc + i2 as int))
                    == funding_map(self@),
            decreases nm - i2,
        {
            proof {
                assert(af[nc + i2 as int] == self@.mempool_funding[i2 as int]);
                assert(self@.mempool_funding[i2 as int] == self.mempool_funding@[i2 as int]@);
                assert(af.skip(nc + i2 as int)[0] == af[nc + i2 as int]);
                assert(af.skip(nc + i2 as int).drop_first() =~= af.skip(nc + i2 + 1));
            }
            let record = self.mempool_funding[i2].duplicate();
            upsert_funding(&mut items, record);
            i2 = i2 + 1;
        }
        proof {
            assert(af.skip(nc + nm as int).len() == 0);
            assert(outs_of_items(fundings_view(items@)) == funding_map(self@));
        }
        // take out what the spending records consume
        let ghost asp = st.spending();
        let sc = self.confirmed_spending.len();
        let mut j: usize = 0;
        proof {
            assert(asp.skip(0) =~= asp);
        }
        while j < sc
            invariant
                sc == self.confirmed_spending.len(),
                j <= sc,
                asp == self@.spending(),
                asp.len() == sc + self@.mempool_spending.len(),
                unique_outpoints(fundings_view(items@)),
                outs_map_minus(outs_of_items(fundings_view(items@)), asp.skip(j as int))
                    == unspent_map(self@),
            decreases sc - j,
        {
            proof {
                assert(asp[j as int] == self@.confirmed_spending[j as int]);
                assert(self@.confirmed_spending[j as int] == self.confirmed_spending@[j as int]@);
                assert(asp.skip(j as int)[0] == asp[j as int]);
                assert(asp.skip(j as int).drop_first() =~= asp.skip(j + 1));
            }
            remove_funding(
                &mut items,
                &self.confirmed_spending[j].funding_txid,
                self.confirmed_spending[j].funding_vout,
            );
            j = j + 1;
        }
        let sm = self.mempool_spending.len();
        let mut j2: usize = 0;
        while j2 < sm
            invariant
                sc == self.confirmed_spending.len(),
                sm == self.mempool_spending.len(),
                j2 <= sm,
                asp == self@.spending(),
                asp.len() == sc + sm,
                unique_outpoints(fundings_view(items@)),
                outs_map_minus(outs_of_items(fundings_view(items@)), asp.skip(sc + j2 as int))
                    == unspent_map(self@),
            decreases sm - j2,
        {
            proof {
                assert(asp[sc + j2 as int] == self@.mempool_spending[j2 as int]);
                assert(self@.mempool_spending[j2 as int] == self.mempool_spending@[j2 as int]@);
                assert(asp.skip(sc + j2 as int)[0] == asp[sc + j2 as int]);
                assert(asp.skip(sc + j2 as int).drop_first() =~= asp.skip(sc + j2 + 1));
            }
            remove_funding(
                &mut items,
                &self.mempool_spending[j2].funding_txid,
                self.mempool_spending[j2].funding_vout,
            );
            j2 = j2 + 1;
        }
        proof {
            assert(asp.skip(sc + sm as int).len() == 0);
            assert(outs_of_items(fundings_view(items@)) == unspent_map(self@));
        }
        let ghost ivv = fundings_view(items@);
        let sorted = sort_fundings(items);
        proof {
            let rv = fundings_view(sorted@);
            let m = unspent_map(self@);
            lemma_outs_of_items_at(ivv);
            assert forall|i3: int|
                0 <= i3 < rv.len() implies m.contains_key(
                ((#[trigger] rv[i3]).txn_id, rv[i3].output_index),
            ) && m[(rv[i3].txn_id, rv[i3].output_index)] == rv[i3] by {
                assert(ivv.contains(rv[i3]));
                let w = choose|w: int| 0 <= w < ivv.len() && ivv[w] == rv[i3];
                assert(m.contains_key((ivv[w].txn_id, ivv[w].output_index)));
            }
            assert forall|k: (Seq<u8>, u32)| m.contains_key(k) implies exists|i3: int|
                0 <= i3 < rv.len() && ((#[trigger] rv[i3]).txn_id, rv[i3].output_index) == k by {
                let w = choose|w: int|
                    0 <= w < ivv.len() && ((#[trigger] ivv[w]).txn_id, ivv[w].output_index) == k;
                assert(rv.contains(ivv[w]));
                let i3 = choose|i3: int| 0 <= i3 < rv.len() && rv[i3] == ivv[w];
                assert((rv[i3].txn_id, rv[i3].output_index) == k);
            }
        }
        sorted
    }
}


// ---------------------------------------------------------------------------
// Status digest
// ---------------------------------------------------------------------------

/// The bytes the status digest is taken over: for each history entry in
/// order, the big-endian hex of its txid, a colon, the decimal height, a
/// colon.
pub open spec fn status_bytes(pairs: Seq<(i32, Seq<u8>)>) -> Seq<u8>
    decreases pairs.len(),
{
    if pairs.len() == 0 {
        Seq::<u8>::empty()
    } else {
        crate::hashes::hex_of(pairs[0].1.reverse()) + seq![58u8] + crate::hashes::dec_of_int(
            pairs[0].0 as int,
        ) + seq![58u8] + status_bytes(pairs.drop_first())
    }
}

/// What `history` returns: strictly sorted, unique txids, exactly the
/// entries of the status's history map.
pub open spec fn is_history_of(st: StatusV, hv: Seq<(i32, Seq<u8>)>) -> bool {
    let m = history_map(st);
    &&& forall|i: int, j: int|
        0 <= i < j < hv.len() ==> hist_lt(#[trigger] hv[i], #[trigger] hv[j])
    &&& unique_txids(hv)
    &&& forall|i: int|
        0 <= i < hv.len() ==> m.contains_key((#[trigger] hv[i]).1) && m[hv[i].1] == hv[i].0
    &&& forall|k: Seq<u8>|
        m.contains_key(k) ==> exists|i: int| 0 <= i < hv.len() && (#[trigger] hv[i]).1 == k
}

pub proof fn lemma_hist_lt_irrefl(a: (i32, Seq<u8>))
    ensures
        !hist_lt(a, a),
{
    crate::bytes::lemma_lex_lt_irrefl(a.1);
}

/// The history conditions over one map pin the sequence down.
pub proof fn lemma_sorted_entries_unique(
    m: Map<Seq<u8>, i32>,
    h1: Seq<(i32, Seq<u8>)>,
    h2: Seq<(i32, Seq<u8>)>,
)
    requires
        forall|i: int, j: int|
            0 <= i < j < h1.len() ==> hist_lt(#[trigger] h1[i], #[trigger] h1[j]),
        forall|i: int, j: int|
            0 <= i < j < h2.len() ==> hist_lt(#[trigger] h2[i], #[trigger] h2[j]),
        unique_txids(h1),
        unique_txids(h2),
        forall|i: int|
            0 <= i < h1.len() ==> m.contains_key((#[trigger] h1[i]).1) && m[h1[i].1] == h1[i].0,
        forall|i: int|
            0 <= i < h2.len() ==> m.contains_key((#[trigger] h2[i]).1) && m[h2[i].1] == h2[i].0,
        forall|k: Seq<u8>|
            m.contains_key(k) ==> exists|i: int| 0 <= i < h1.len() && (#[trigger] h1[i]).1 == k,
        forall|k: Seq<u8>|
            m.contains_key(k) ==> exists|i: int| 0 <= i < h2.len() && (#[trigger] h2[i]).1 == k,
    ensures
        h1 == h2,
    decreases h1.len(),
{
    if h1.len() == 0 {
        if h2.len() > 0 {
            assert(m.contains_key(h2[0].1));
            let w = choose|i: int| 0 <= i < h1.len() && (#[trigger] h1[i]).1 == h2[0].1;
            assert(false);
        }
        assert(h1 =~= h2);
    } else if h2.len() == 0 {
        assert(m.contains_key(h1[0].1));
        let w = choose|i: int| 0 <= i < h2.len() && (#[trigger] h2[i]).1 == h1[0].1;
        assert(false);
    } else {
        // the heads agree: each would otherwise sort strictly inside the other
        assert(m.contains_key(h1[0].1));
        let j = choose|i: int| 0 <= i < h2.len() && (#[trigger] h2[i]).1 == h1[0].1;
        assert(h2[j] == h1[0]);
        let i = choose|i2: int| 0 <= i2 < h1.len() && (#[trigger] h1[i2]).1 == h2[0].1;
        assert(h1[i] == h2[0]);
        if j > 0 {
            assert(hist_lt(h2[0], h2[j]));
            if i > 0 {
                assert(hist_lt(h1[0], h1[i]));
                lemma_hist_lt_trans(h1[0], h2[0], h1[0]);
                lemma_hist_lt_irrefl(h1[0]);
            } else {
                lemma_hist_lt_irrefl(h1[0]);
            }
        }
        assert(h1[0] == h2[0]);
        let key0 = h1[0].1;
        let m2 = m.remove(key0);
        let t1 = h1.drop_first();
        let t2 = h2.drop_first();
        assert forall|k: Seq<u8>| m2.contains_key(k) implies exists|w: int|
            0 <= w < t1.len() && (#[trigger] t1[w]).1 == k by {
            let w = choose|w: int| 0 <= w < h1.len() && (#[trigger] h1[w]).1 == k;
            assert(w != 0);
            assert(t1[w - 1] == h1[w]);
        }
        assert forall|k: Seq<u8>| m2.contains_key(k) implies exists|w: int|
            0 <= w < t2.len() && (#[trigger] t2[w]).1 == k by {
            let w = choose|w: int| 0 <= w < h2.len() && (#[trigger] h2[w]).1 == k;
            assert(w != 0);
            assert(t2[w - 1] == h2[w]);
        }
        assert(forall|w: int| 0 <= w < t1.len() ==> (#[trigger] t1[w]) == h1[w + 1]);
        assert(forall|w: int| 0 <= w < t2.len() ==> (#[trigger] t2[w]) == h2[w + 1]);
        assert forall|w: int|
            0 <= w < t1.len() implies m2.contains_key((#[trigger] t1[w]).1) && m2[t1[w].1]
            == t1[w].0 by {
            assert(t1[w] == h1[w + 1]);
            assert(h1[w + 1].1 != key0);
        }
        assert forall|w: int|
            0 <= w < t2.len() implies m2.contains_key((#[trigger] t2[w]).1) && m2[t2[w].1]
            == t2[w].0 by {
            assert(t2[w] == h2[w + 1]);
            assert(h2[w + 1].1 != key0);
        }
        lemma_sorted_entries_unique(m2, t1, t2);
        assert forall|w: int| 0 <= w < h1.len() implies h1[w] == h2[w] by {
            if w > 0 {
                assert(t1[w - 1] == t2[w - 1]);
            }
        }
        assert(h1 =~= h2);
    }
}

/// Law: a status determines its history: any two sequences that meet the
/// history conditions are equal, so the digest below is a function of the
/// ordered `(height, txid)` pairs alone.
pub proof fn lemma_history_unique(st: StatusV, h1: Seq<(i32, Seq<u8>)>, h2: Seq<(i32, Seq<u8>)>)
    requires
        is_history_of(st, h1),
        is_history_of(st, h2),
    ensures
        h1 == h2,
{
    lemma_sorted_entries_unique(history_map(st), h1, h2);
}

impl Status {
    /// The status digest: nothing for an empty history; otherwise the
    /// SHA-256 of the history entries rendered as `hex(txid):height:` in
    /// history order.
    pub fn hash(&self) -> (r: Option<Vec<u8>>)
        ensures
            match r {
                None => forall|k: Seq<u8>| !history_map(self@).contains_key(k),
                Some(d) => exists|hv: Seq<(i32, Seq<u8>)>|
                    #[trigger] is_history_of(self@, hv) && hv.len() > 0 && d@ == crate::hashes::sha256_of(
                        status_bytes(hv),
                    ),
            },
    {
        let entries = self.history();
        let ghost ev = pairs_view(entries@);
        if entries.len() == 0 {
            proof {
                assert forall|k: Seq<u8>| !history_map(self@).contains_key(k) by {
                    if history_map(self@).contains_key(k) {
                        let w = choose|i: int| 0 <= i < ev.len() && (#[trigger] ev[i]).1 == k;
                        assert(false);
                    }
                }
            }
            return None;
        }
        let mut buf: Vec<u8> = Vec::new();
        let n = entries.len();
        let mut i: usize = 0;
        proof {
            assert(ev.skip(0) =~= ev);
            assert(buf@ + status_bytes(ev.skip(0)) =~= status_bytes(ev));
        }
        while i < n
            invariant
                n == entries.len(),
                i <= n,
                ev == pairs_view(entries@),
                ev.len() == n,
                buf@ + status_bytes(ev.skip(i as int)) == status_bytes(ev),
            decreases n - i,
        {
            proof {
                assert(ev[i as int] == (entries@[i as int].0, entries@[i as int].1@));
                assert(ev.skip(i as int)[0] == ev[i as int]);
                assert(ev.skip(i as int).drop_first() =~= ev.skip(i + 1));
            }
            let rev = crate::hashes::reverse_bytes(&entries[i].1);
            let hx = crate::hashes::hex_encode(&rev);
            crate::bytes::append_bytes(&mut buf, &hx);
            buf.push(58);
            let dec = crate::hashes::dec_encode_i32(entries[i].0);
            crate::bytes::append_bytes(&mut buf, &dec);
            buf.push(58);
            proof {
                assert(buf@ + status_bytes(ev.skip(i + 1)) =~= status_bytes(ev));
            }
            i = i + 1;
        }
        proof {
            assert(ev.skip(n as int).len() == 0);
            assert(buf@ =~= status_bytes(ev));
            assert(is_history_of(self@, ev));
        }
        let digest = crate::hashes::sha256(&buf);
        Some(digest)
    }
}

/// Law: a status with no records at all has an empty history map, zero
/// balances everywhere and nothing unspent.
pub proof fn lemma_empty_status(st: StatusV)
    requires
        st.confirmed_funding.len() == 0,
        st.confirmed_spending.len() == 0,
        st.mempool_funding.len() == 0,
        st.mempool_spending.len() == 0,
    ensures
        forall|k: Seq<u8>| !history_map(st).contains_key(k),
        balance_of(st.confirmed_funding, st.confirmed_spending) == 0,
        balance_of(st.mempool_funding, st.mempool_spending) == 0,
        forall|k: (Seq<u8>, u32)| !unspent_map(st).contains_key(k),
{
    assert(st.funding() =~= Seq::<FundingOutputV>::empty());
    assert(st.spending() =~= Seq::<SpendingInputV>::empty());
    assert(entry_list(st) =~= Seq::<(i32, Seq<u8>)>::empty());
    assert(history_map(st) == Map::<Seq<u8>, i32>::empty());
    assert(funding_map(st) == Map::<(Seq<u8>, u32), FundingOutputV>::empty());
    assert(unspent_map(st) == funding_map(st));
}


/// Inserting funding records only grows the key set.
pub proof fn lemma_outs_map_of_monotone(
    m: Map<(Seq<u8>, u32), FundingOutputV>,
    fs: Seq<FundingOutputV>,
    k: (Seq<u8>, u32),
)
    requires
        m.contains_key(k),
    ensures
        outs_map_of(m, fs).contains_key(k),
    decreases fs.len(),
{
    if fs.len() > 0 {
        lemma_outs_map_of_monotone(
            m.insert((fs[0].txn_id, fs[0].output_index), fs[0]),
            fs.drop_first(),
            k,
        );
    }
}

/// The funding map carries every funding record's outpoint.
pub proof fn lemma_outs_map_of_covers(
    m: Map<(Seq<u8>, u32), FundingOutputV>,
    fs: Seq<FundingOutputV>,
)
    ensures
        forall|j: int|
            0 <= j < fs.len() ==> outs_map_of(m, fs).contains_key(
                ((#[trigger] fs[j]).txn_id, fs[j].output_index),
            ),
    decreases fs.len(),
{
    if fs.len() > 0 {
        let m2 = m.insert((fs[0].txn_id, fs[0].output_index), fs[0]);
        lemma_outs_map_of_covers(m2, fs.drop_first());
        lemma_outs_map_of_monotone(m2, fs.drop_first(), (fs[0].txn_id, fs[0].output_index));
        assert forall|j: int|
            0 <= j < fs.len() implies outs_map_of(m, fs).contains_key(
            ((#[trigger] fs[j]).txn_id, fs[j].output_index),
        ) by {
            if j > 0 {
                assert(fs.drop_first()[j - 1] == fs[j]);
            }
        }
    }
}


} // verus!
