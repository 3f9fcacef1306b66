use vstd::prelude::*;

use crate::diagnostics::{key_of, views, with_just, DiagView, Diagnostic};

verus! {

/// The index of the first entry whose `(path, moniker)` key is `k`, if any.
pub open spec fn find_key(s: Seq<DiagView>, k: (Seq<char>, Seq<char>)) -> Option<int>
    decreases s.len(),
{
    if s.len() == 0 {
        None
    } else if key_of(s[0]) == k {
        Some(0)
    } else {
        match find_key(s.drop_first(), k) {
            Some(i) => Some(i + 1),
            None => None,
        }
    }
}

/// One upsert: if an entry shares `d`'s key, only that entry's justification
/// changes, in place; otherwise `d` is appended whole.
pub open spec fn upsert_v(s: Seq<DiagView>, d: DiagView) -> Seq<DiagView> {
    match find_key(s, key_of(d)) {
        Some(i) => s.update(i, with_just(s[i], d.justification)),
        None => s.push(d),
    }
}

/// One reconciliation step: a diagnostic with an empty justification carries
/// no information and leaves the entries untouched.
pub open spec fn step_v(s: Seq<DiagView>, d: DiagView) -> Seq<DiagView> {
    if d.justification.len() == 0 {
        s
    } else {
        upsert_v(s, d)
    }
}

/// The reconciliation merge: every diagnostic of `data`, in order, applied
/// to the entries by `step_v`.
pub open spec fn reconcile_v(data: Seq<DiagView>, s: Seq<DiagView>) -> Seq<DiagView>
    decreases data.len(),
{
    if data.len() == 0 {
        s
    } else {
        reconcile_v(data.drop_first(), step_v(s, data[0]))
    }
}

/// The persisted suppression record: a name label and its ordered entries.
pub struct SuppressionLedger {
    pub name: String,
    pub entries: Vec<Diagnostic>,
}

/// The mathematical value of a ledger.
#[verifier::ext_equal]
pub struct LedgerView {
    pub name: Seq<char>,
    pub entries: Seq<DiagView>,
}

impl View for SuppressionLedger {
    type V = LedgerView;

    open spec fn view(&self) -> LedgerView {
        LedgerView { name: self.name@, entries: views(self.entries@) }
    }
}

proof fn lemma_find_key_at(s: Seq<DiagView>, k: (Seq<char>, Seq<char>), i: int)
    requires
        0 <= i < s.len(),
        key_of(s[i]) == k,
        forall|p: int| 0 <= p < i ==> key_of(s[p]) != k,
    ensures
        find_key(s, k) == Some(i),
    decreases i,
{
    if i > 0 {
        lemma_find_key_at(s.drop_first(), k, i - 1);
    }
}

proof fn lemma_find_key_none(s: Seq<DiagView>, k: (Seq<char>, Seq<char>))
    requires
        forall|p: int| 0 <= p < s.len() ==> key_of(s[p]) != k,
    ensures
        find_key(s, k) is None,
    decreases s.len(),
{
    if s.len() > 0 {
        lemma_find_key_none(s.drop_first(), k);
    }
}

impl SuppressionLedger {
    /// Applies one diagnostic to the record by key: an entry with the same
    /// `(path, moniker)` key has only its justification replaced, keeping its
    /// position and every other field; when no entry matches, a full copy of
    /// `entry` is appended at the tail.
    pub fn upsert(&mut self, entry: &Diagnostic)
        ensures
            final(self)@.name == old(self)@.name,
            final(self)@.entries == upsert_v(old(self)@.entries, entry@),
    {
        let n = self.entries.len();
        let mut i: usize = 0;
        while i < n
            invariant
                n == self.entries@.len(),
                i <= n,
                *self == *old(self),
                forall|p: int| 0 <= p < i ==> key_of(views(self.entries@)[p]) != key_of(entry@),
            decreases n - i,
        {
            let found = self.entries[i].path == entry.path && self.entries[i].moniker
                == entry.moniker;
            if found {
                proof {
                    lemma_find_key_at(views(self.entries@), key_of(entry@), i as int);
                }
                let ghost entries0 = views(self.entries@);
                self.entries[i].justification = entry.justification.clone();
                proof {
                    assert(views(self.entries@) =~= entries0.update(
                        i as int,
                        with_just(entries0[i as int], entry@.justification),
                    ));
                }
                return ;
            }
            i += 1;
        }
        proof {
            lemma_find_key_none(views(self.entries@), key_of(entry@));
        }
        let ghost entries0 = views(self.entries@);
        self.entries.push(entry.clone());
        proof {
            assert(views(self.entries@) =~= entries0.push(entry@));
        }
    }
}

proof fn lemma_reconcile_snoc(data: Seq<DiagView>, x: DiagView, s: Seq<DiagView>)
    ensures
        reconcile_v(data.push(x), s) == step_v(reconcile_v(data, s), x),
    decreases data.len(),
{
    if data.len() == 0 {
        assert(data.push(x)[0] == x);
        assert(data.push(x).drop_first() =~= data);
        assert(reconcile_v(data.push(x), s) == reconcile_v(data, step_v(s, x)));
        assert(reconcile_v(data, step_v(s, x)) == step_v(s, x));
        assert(reconcile_v(data, s) == s);
    } else {
        let d0 = data[0];
        assert(data.push(x)[0] == d0);
        assert(data.push(x).drop_first() =~= data.drop_first().push(x));
        assert(reconcile_v(data.push(x), s) == reconcile_v(data.drop_first().push(x), step_v(s, d0)));
        lemma_reconcile_snoc(data.drop_first(), x, step_v(s, d0));
        assert(reconcile_v(data, s) == reconcile_v(data.drop_first(), step_v(s, d0)));
    }
}

/// Folds the current diagnostic set into the ledger: each diagnostic with a
/// non-empty justification is upserted by key, in set order; the rest are
/// skipped.  Entries are never removed and never reordered.
pub fn reconcile(data: &Vec<Diagnostic>, ledger: &mut SuppressionLedger)
    ensures
        final(ledger)@.name == old(ledger)@.name,
        final(ledger)@.entries == reconcile_v(views(data@), old(ledger)@.entries),
{
    let n = data.len();
    let mut i: usize = 0;
    proof {
        assert(views(data@).take(0) =~= Seq::<DiagView>::empty());
    }
    while i < n
        invariant
            n == data@.len(),
            i <= n,
            ledger@.name == old(ledger)@.name,
            ledger@.entries == reconcile_v(views(data@).take(i as int), old(ledger)@.entries),
        decreases n - i,
    {
        let ghost taken = views(data@).take(i as int);
        let d = &data[i];
        if !d.justification.as_str().is_empty() {
            ledger.upsert(d);
        }
        proof {
            lemma_reconcile_snoc(taken, data@[i as int]@, old(ledger)@.entries);
            assert(views(data@).take(i + 1) =~= taken.push(data@[i as int]@));
        }
        i += 1;
    }
    proof {
        assert(views(data@).take(n as int) =~= views(data@));
    }
}

/// The justification of the last diagnostic in `data` that has key `k` and a
/// non-empty justification, if any: the value that wins a reconciliation.
pub open spec fn lastj(data: Seq<DiagView>, k: (Seq<char>, Seq<char>)) -> Option<Seq<char>>
    decreases data.len(),
{
    if data.len() == 0 {
        None
    } else {
        match lastj(data.drop_first(), k) {
            Some(j) => Some(j),
            None => if data[0].justification.len() > 0 && key_of(data[0]) == k {
                Some(data[0].justification)
            } else {
                None
            },
        }
    }
}

/// `lastj`, with a default for keys the diagnostic set leaves alone.
pub open spec fn lastj_or(
    data: Seq<DiagView>,
    k: (Seq<char>, Seq<char>),
    dflt: Seq<char>,
) -> Seq<char> {
    match lastj(data, k) {
        Some(j) => j,
        None => dflt,
    }
}

/// What reconciliation makes of the existing entries: the first entry of
/// each key takes the winning justification of `data`, every other entry is
/// untouched.
pub open spec fn updated_entries(data: Seq<DiagView>, s: Seq<DiagView>) -> Seq<DiagView> {
    Seq::new(
        s.len(),
        |i: int|
            if find_key(s, key_of(s[i])) == Some(i) {
                with_just(s[i], lastj_or(data, key_of(s[i]), s[i].justification))
            } else {
                s[i]
            },
    )
}

/// What reconciliation appends: one entry per key of `data` that is absent
/// from the existing entries and carries a non-empty justification, in the
/// order those keys first appear, with the winning justification.
pub open spec fn new_entries(data: Seq<DiagView>, s: Seq<DiagView>) -> Seq<DiagView>
    decreases data.len(),
{
    if data.len() == 0 {
        Seq::empty()
    } else {
        let d = data[0];
        let rest = data.drop_first();
        if d.justification.len() > 0 && find_key(s, key_of(d)) is None {
            seq![with_just(d, lastj_or(data, key_of(d), d.justification))] + new_entries(
                rest,
                s.push(d),
            )
        } else {
            new_entries(rest, s)
        }
    }
}

/// Two entry sequences that agree key-for-key.
pub open spec fn same_keys(a: Seq<DiagView>, b: Seq<DiagView>) -> bool {
    &&& a.len() == b.len()
    &&& forall|i: int| 0 <= i < a.len() ==> key_of(a[i]) == key_of(b[i])
}

proof fn lemma_find_key_props(s: Seq<DiagView>, k: (Seq<char>, Seq<char>))
    ensures
        match find_key(s, k) {
            Some(i) => 0 <= i < s.len() && key_of(s[i]) == k && (forall|p: int|
                0 <= p < i ==> key_of(s[p]) != k),
            None => forall|p: int| 0 <= p < s.len() ==> key_of(s[p]) != k,
        },
    decreases s.len(),
{
    if s.len() > 0 && key_of(s[0]) != k {
        lemma_find_key_props(s.drop_first(), k);
        match find_key(s.drop_first(), k) {
            Some(i) => {
                assert(s.drop_first()[i] == s[i + 1]);
                assert forall|p: int| 0 <= p < i + 1 implies key_of(s[p]) != k by {
                    if p > 0 {
                        assert(s.drop_first()[p - 1] == s[p]);
                    }
                }
            },
            None => {
                assert forall|p: int| 0 <= p < s.len() implies key_of(s[p]) != k by {
                    if p > 0 {
                        assert(s.drop_first()[p - 1] == s[p]);
                    }
                }
            },
        }
    }
}

proof fn lemma_find_key_same_keys(a: Seq<DiagView>, b: Seq<DiagView>, k: (Seq<char>, Seq<char>))
    requires
        same_keys(a, b),
    ensures
        find_key(a, k) == find_key(b, k),
    decreases a.len(),
{
    if a.len() > 0 {
        assert(same_keys(a.drop_first(), b.drop_first()));
        lemma_find_key_same_keys(a.drop_first(), b.drop_first(), k);
    }
}

proof fn lemma_find_key_push(s: Seq<DiagView>, d: DiagView, k: (Seq<char>, Seq<char>))
    ensures
        find_key(s.push(d), k) == (match find_key(s, k) {
            Some(i) => Some(i),
            None => if key_of(d) == k {
                Some(s.len() as int)
            } else {
                None::<int>
            },
        }),
    decreases s.len(),
{
    if s.len() == 0 {
        assert(s.push(d)[0] == d);
        assert(s.push(d).drop_first() =~= Seq::<DiagView>::empty());
    } else {
        assert(s.push(d)[0] == s[0]);
        assert(s.push(d).drop_first() =~= s.drop_first().push(d));
        lemma_find_key_push(s.drop_first(), d, k);
    }
}

proof fn lemma_find_key_concat(a: Seq<DiagView>, b: Seq<DiagView>, k: (Seq<char>, Seq<char>))
    ensures
        find_key(a + b, k) == (match find_key(a, k) {
            Some(i) => Some(i),
            None => match find_key(b, k) {
                Some(j) => Some(a.len() + j),
                None => None::<int>,
            },
        }),
    decreases a.len(),
{
    if a.len() == 0 {
        assert(a + b =~= b);
    } else {
        assert((a + b)[0] == a[0]);
        assert((a + b).drop_first() =~= a.drop_first() + b);
        lemma_find_key_concat(a.drop_first(), b, k);
    }
}

proof fn lemma_new_entries_same_keys(data: Seq<DiagView>, a: Seq<DiagView>, b: Seq<DiagView>)
    requires
        same_keys(a, b),
    ensures
        new_entries(data, a) == new_entries(data, b),
    decreases data.len(),
{
    if data.len() > 0 {
        let d = data[0];
        let rest = data.drop_first();
        lemma_find_key_same_keys(a, b, key_of(d));
        if d.justification.len() > 0 && find_key(a, key_of(d)) is None {
            assert(same_keys(a.push(d), b.push(d)));
            lemma_new_entries_same_keys(rest, a.push(d), b.push(d));
        } else {
            lemma_new_entries_same_keys(rest, a, b);
        }
    }
}

/// The reconciliation result, entry by entry: the existing entries with
/// their winning justifications, then the appended new entries.
pub proof fn lemma_reconcile_characterized(data: Seq<DiagView>, s: Seq<DiagView>)
    ensures
        reconcile_v(data, s) == updated_entries(data, s) + new_entries(data, s),
    decreases data.len(),
{
    if data.len() == 0 {
        assert(updated_entries(data, s) =~= s);
        assert(updated_entries(data, s) + new_entries(data, s) =~= s);
    } else {
        let d = data[0];
        let rest = data.drop_first();
        let k = key_of(d);
        if d.justification.len() == 0 {
            lemma_reconcile_characterized(rest, s);
            assert(step_v(s, d) == s);
            assert forall|i: int| 0 <= i < s.len() implies updated_entries(rest, s)[i]
                == updated_entries(data, s)[i] by {
                let ki = key_of(s[i]);
                assert(lastj(data, ki) == lastj(rest, ki));
            }
            assert(updated_entries(rest, s) =~= updated_entries(data, s));
            assert(new_entries(data, s) == new_entries(rest, s));
        } else {
            lemma_find_key_props(s, k);
            if find_key(s, k) is Some {
                let fi = match find_key(s, k) {
                    Some(i) => i,
                    None => 0,
                };
                let e2 = s.update(fi, with_just(s[fi], d.justification));
                assert(step_v(s, d) == e2);
                lemma_reconcile_characterized(rest, e2);
                assert(same_keys(s, e2));
                lemma_new_entries_same_keys(rest, e2, s);
                assert(new_entries(data, s) == new_entries(rest, s));
                assert forall|p: int| 0 <= p < s.len() implies updated_entries(rest, e2)[p]
                    == updated_entries(data, s)[p] by {
                    let kp = key_of(s[p]);
                    assert(key_of(e2[p]) == kp);
                    lemma_find_key_same_keys(e2, s, kp);
                    if p == fi {
                        if lastj(rest, k) is Some {
                            assert(lastj(data, k) == lastj(rest, k));
                            assert(with_just(e2[p], lastj_or(rest, k, e2[p].justification))
                                =~= with_just(s[p], lastj_or(data, k, s[p].justification)));
                        } else {
                            assert(lastj(data, k) == Some(d.justification));
                            assert(with_just(e2[p], lastj_or(rest, k, e2[p].justification))
                                =~= with_just(s[p], lastj_or(data, k, s[p].justification)));
                        }
                    } else if kp == k {
                        assert(find_key(s, kp) == Some(fi));
                        assert(e2[p] == s[p]);
                    } else {
                        assert(lastj(data, kp) == lastj(rest, kp));
                        assert(e2[p] == s[p]);
                        if find_key(s, kp) == Some(p) {
                            assert(with_just(e2[p], lastj_or(rest, kp, e2[p].justification))
                                =~= with_just(s[p], lastj_or(data, kp, s[p].justification)));
                        }
                    }
                }
                assert(updated_entries(rest, e2) =~= updated_entries(data, s));
                assert(reconcile_v(data, s) == updated_entries(data, s) + new_entries(data, s));
            } else {
                let e2 = s.push(d);
                assert(step_v(s, d) == e2);
                lemma_reconcile_characterized(rest, e2);
                let h = with_just(d, lastj_or(data, k, d.justification));
                assert(new_entries(data, s) == seq![h] + new_entries(rest, e2));
                assert forall|p: int| 0 <= p < e2.len() implies updated_entries(rest, e2)[p]
                    == updated_entries(data, s).push(h)[p] by {
                    lemma_find_key_push(s, d, key_of(e2[p]));
                    if p < s.len() {
                        let kp = key_of(s[p]);
                        assert(e2[p] == s[p]);
                        assert(kp != k);
                        assert(lastj(data, kp) == lastj(rest, kp));
                        lemma_find_key_props(s, kp);
                        assert(find_key(s, kp) is Some);
                        assert(find_key(e2, kp) == find_key(s, kp));
                        if find_key(s, kp) == Some(p) {
                            assert(with_just(e2[p], lastj_or(rest, kp, e2[p].justification))
                                =~= with_just(s[p], lastj_or(data, kp, s[p].justification)));
                        }
                    } else {
                        assert(e2[p] == d);
                        assert(find_key(e2, k) == Some(p));
                        if lastj(rest, k) is Some {
                            assert(lastj(data, k) == lastj(rest, k));
                        } else {
                            assert(lastj(data, k) == Some(d.justification));
                        }
                        assert(with_just(e2[p], lastj_or(rest, k, e2[p].justification)) =~= h);
                    }
                }
                assert(updated_entries(rest, e2) =~= updated_entries(data, s).push(h));
                assert(updated_entries(data, s).push(h) + new_entries(rest, e2)
                    =~= updated_entries(data, s) + (seq![h] + new_entries(rest, e2)));
                assert(reconcile_v(data, s) == updated_entries(data, s) + new_entries(data, s));
            }
        }
    }
}

/// Non-destructive merge: reconciliation keeps every existing entry at its
/// position and with its key, replacing at most the justification of the
/// first entry of a key, and appends exactly `new_entries`: the diagnostics
/// whose key is absent and whose justification is non-empty, in
/// diagnostic-set order.
pub proof fn lemma_reconcile_non_destructive(data: Seq<DiagView>, s: Seq<DiagView>)
    ensures
        reconcile_v(data, s).len() == s.len() + new_entries(data, s).len(),
        forall|i: int| 0 <= i < s.len() ==> key_of(#[trigger] reconcile_v(data, s)[i]) == key_of(
            s[i],
        ),
        forall|i: int|
            0 <= i < s.len() ==> (#[trigger] reconcile_v(data, s)[i] == s[i] || reconcile_v(
                data,
                s,
            )[i] == with_just(s[i], lastj_or(data, key_of(s[i]), s[i].justification))),
        reconcile_v(data, s).subrange(s.len() as int, reconcile_v(data, s).len() as int)
            == new_entries(data, s),
        forall|i: int|
            0 <= i < new_entries(data, s).len() ==> find_key(
                s,
                key_of(#[trigger] new_entries(data, s)[i]),
            ) is None,
{
    lemma_reconcile_characterized(data, s);
    assert forall|i: int| 0 <= i < new_entries(data, s).len() implies find_key(
        s,
        key_of(#[trigger] new_entries(data, s)[i]),
    ) is None by {
        lemma_new_entries_resolved(data, s, i);
    }
    let r = reconcile_v(data, s);
    assert forall|i: int| 0 <= i < s.len() implies key_of(#[trigger] r[i]) == key_of(s[i]) by {
        assert(r[i] == updated_entries(data, s)[i]);
    }
    assert forall|i: int|
        0 <= i < s.len() implies (#[trigger] r[i] == s[i] || r[i] == with_just(
        s[i],
        lastj_or(data, key_of(s[i]), s[i].justification),
    )) by {
        assert(r[i] == updated_entries(data, s)[i]);
    }
    assert(r.subrange(s.len() as int, r.len() as int) =~= new_entries(data, s));
}

proof fn lemma_step_keeps_key(s: Seq<DiagView>, d: DiagView, k: (Seq<char>, Seq<char>))
    requires
        find_key(s, k) is Some,
    ensures
        find_key(step_v(s, d), k) is Some,
{
    if d.justification.len() > 0 {
        match find_key(s, key_of(d)) {
            Some(i) => {
                lemma_find_key_props(s, key_of(d));
                let e2 = s.update(i, with_just(s[i], d.justification));
                assert(same_keys(s, e2));
                lemma_find_key_same_keys(s, e2, k);
            },
            None => {
                lemma_find_key_push(s, d, k);
            },
        }
    }
}

proof fn lemma_reconcile_keeps_key(data: Seq<DiagView>, s: Seq<DiagView>, k: (Seq<char>, Seq<char>))
    requires
        find_key(s, k) is Some,
    ensures
        find_key(reconcile_v(data, s), k) is Some,
    decreases data.len(),
{
    if data.len() > 0 {
        lemma_step_keeps_key(s, data[0], k);
        lemma_reconcile_keeps_key(data.drop_first(), step_v(s, data[0]), k);
    }
}

proof fn lemma_reconcile_has_key(data: Seq<DiagView>, s: Seq<DiagView>, j: int)
    requires
        0 <= j < data.len(),
        data[j].justification.len() > 0,
    ensures
        find_key(reconcile_v(data, s), key_of(data[j])) is Some,
    decreases j,
{
    let d0 = data[0];
    let e2 = step_v(s, d0);
    if j == 0 {
        match find_key(s, key_of(d0)) {
            Some(i) => {
                lemma_find_key_props(s, key_of(d0));
                assert(same_keys(s, s.update(i, with_just(s[i], d0.justification))));
                lemma_find_key_same_keys(s, s.update(i, with_just(s[i], d0.justification)),
                    key_of(d0));
            },
            None => {
                lemma_find_key_push(s, d0, key_of(d0));
            },
        }
        assert(find_key(e2, key_of(d0)) is Some);
        lemma_reconcile_keeps_key(data.drop_first(), e2, key_of(d0));
    } else {
        assert(data.drop_first()[j - 1] == data[j]);
        lemma_reconcile_has_key(data.drop_first(), e2, j - 1);
    }
}

proof fn lemma_new_entries_all_found(data: Seq<DiagView>, s: Seq<DiagView>)
    requires
        forall|j: int|
            0 <= j < data.len() && (#[trigger] data[j]).justification.len() > 0 ==> find_key(
                s,
                key_of(data[j]),
            ) is Some,
    ensures
        new_entries(data, s) == Seq::<DiagView>::empty(),
    decreases data.len(),
{
    if data.len() > 0 {
        assert(data[0] == data[0]);
        assert forall|j: int|
            0 <= j < data.drop_first().len() && (#[trigger] data.drop_first()[j]).justification.len()
                > 0 implies find_key(s, key_of(data.drop_first()[j])) is Some by {
            assert(data.drop_first()[j] == data[j + 1]);
        }
        lemma_new_entries_all_found(data.drop_first(), s);
    }
}

proof fn lemma_new_entries_resolved(data: Seq<DiagView>, s: Seq<DiagView>, i: int)
    requires
        0 <= i < new_entries(data, s).len(),
    ensures
        lastj(data, key_of(new_entries(data, s)[i])) == Some(new_entries(data, s)[i].justification),
        find_key(s, key_of(new_entries(data, s)[i])) is None,
        forall|p: int|
            0 <= p < i ==> key_of(#[trigger] new_entries(data, s)[p]) != key_of(
                new_entries(data, s)[i],
            ),
    decreases data.len(),
{
    let d = data[0];
    let rest = data.drop_first();
    let k = key_of(d);
    let ne = new_entries(data, s);
    if d.justification.len() > 0 && find_key(s, k) is None {
        let h = with_just(d, lastj_or(data, k, d.justification));
        let tail = new_entries(rest, s.push(d));
        assert(ne == seq![h] + tail);
        if i == 0 {
            assert(ne[0] == h);
            assert(key_of(h) == k);
            if lastj(rest, k) is Some {
                assert(lastj(data, k) == lastj(rest, k));
            } else {
                assert(lastj(data, k) == Some(d.justification));
            }
        } else {
            assert(ne[i] == tail[i - 1]);
            lemma_new_entries_resolved(rest, s.push(d), i - 1);
            let e = tail[i - 1];
            let ke = key_of(e);
            lemma_find_key_push(s, d, ke);
            assert(find_key(s.push(d), ke) is None);
            assert(find_key(s, ke) is None);
            assert(ke != k);
            assert(lastj(data, ke) == lastj(rest, ke));
            assert forall|p: int| 0 <= p < i implies key_of(#[trigger] ne[p]) != ke by {
                if p == 0 {
                    assert(ne[0] == h);
                } else {
                    assert(ne[p] == tail[p - 1]);
                }
            }
        }
    } else {
        assert(ne == new_entries(rest, s));
        lemma_new_entries_resolved(rest, s, i);
        let e = ne[i];
        let ke = key_of(e);
        if d.justification.len() > 0 {
            assert(find_key(s, k) is Some);
            assert(find_key(s, ke) is None);
            assert(ke != k);
            assert(lastj(data, ke) == lastj(rest, ke));
        } else {
            assert(lastj(data, ke) == lastj(rest, ke));
        }
    }
}

/// Upsert idempotence: reconciling the same diagnostic set a second time
/// changes nothing.
pub proof fn lemma_reconcile_idempotent(data: Seq<DiagView>, s: Seq<DiagView>)
    ensures
        reconcile_v(data, reconcile_v(data, s)) == reconcile_v(data, s),
{
    let r = reconcile_v(data, s);
    let u = updated_entries(data, s);
    let ne = new_entries(data, s);
    lemma_reconcile_characterized(data, s);
    lemma_reconcile_characterized(data, r);
    assert forall|j: int|
        0 <= j < data.len() && (#[trigger] data[j]).justification.len() > 0 implies find_key(
        r,
        key_of(data[j]),
    ) is Some by {
        lemma_reconcile_has_key(data, s, j);
    }
    lemma_new_entries_all_found(data, r);
    assert(same_keys(u, s));
    assert forall|i: int| 0 <= i < r.len() implies updated_entries(data, r)[i] == r[i] by {
        if i < s.len() {
            assert(r[i] == u[i]);
            let ki = key_of(s[i]);
            assert(key_of(r[i]) == ki);
            lemma_find_key_same_keys(u, s, ki);
            lemma_find_key_concat(u, ne, ki);
            lemma_find_key_props(s, ki);
            assert(find_key(s, ki) is Some);
            let m = match find_key(s, ki) {
                Some(m) => m,
                None => 0,
            };
            assert(find_key(r, ki) == Some(m));
            if m == i {
                if lastj(data, ki) is Some {
                    assert(u[i] == with_just(s[i], lastj_or(data, ki, s[i].justification)));
                    assert(r[i].justification == lastj_or(data, ki, s[i].justification));
                    assert(with_just(r[i], lastj_or(data, ki, r[i].justification)) =~= r[i]);
                } else {
                    assert(u[i] =~= s[i]);
                    assert(with_just(r[i], lastj_or(data, ki, r[i].justification)) =~= r[i]);
                }
            }
        } else {
            let idx = i - s.len();
            let e = ne[idx];
            assert(r[i] == e);
            lemma_new_entries_resolved(data, s, idx);
            let ke = key_of(e);
            lemma_find_key_same_keys(u, s, ke);
            lemma_find_key_concat(u, ne, ke);
            lemma_find_key_at(ne, ke, idx);
            assert(find_key(r, ke) == Some(i));
            assert(with_just(r[i], lastj_or(data, ke, r[i].justification)) =~= r[i]);
        }
    }
    assert(updated_entries(data, r) =~= r);
    assert(updated_entries(data, r) + new_entries(data, r) =~= r);
}

/// Empty-justification no-op: a diagnostic whose justification is the empty
/// string never creates nor changes an entry, wherever it stands in the
/// diagnostic set.
pub proof fn lemma_empty_justification_noop(
    data: Seq<DiagView>,
    s: Seq<DiagView>,
    d: DiagView,
    i: int,
)
    requires
        0 <= i <= data.len(),
        d.justification.len() == 0,
    ensures
        reconcile_v(data.insert(i, d), s) == reconcile_v(data, s),
    decreases i,
{
    if i == 0 {
        assert(data.insert(0, d)[0] == d);
        assert(data.insert(0, d).drop_first() =~= data);
        assert(step_v(s, d) == s);
    } else {
        assert(data.insert(i, d)[0] == data[0]);
        assert(data.insert(i, d).drop_first() =~= data.drop_first().insert(i - 1, d));
        lemma_empty_justification_noop(data.drop_first(), step_v(s, data[0]), d, i - 1);
    }
}

} // verus!

