use vstd::prelude::*;
use crate::common::{Command, CommandView, K, V};
use crate::log::LogEntry;

verus! {

#[verifier::external_type_specification]
#[verifier::external_body]
pub struct ExIoError(std::io::Error);

/// The point of the log up to which a state machine has taken a snapshot.
#[derive(Debug)]
pub struct Snapshot {
    last_index: u64,
    last_term: u64,
}

/// What a `Snapshot` records.
pub struct SnapshotView {
    pub last_index: u64,
    pub last_term: u64,
}

impl View for Snapshot {
    type V = SnapshotView;

    closed spec fn view(&self) -> SnapshotView {
        SnapshotView { last_index: self.last_index, last_term: self.last_term }
    }
}

impl Default for Snapshot {
    fn default() -> (r: Self)
        ensures
            r@.last_index == 0,
            r@.last_term == 0,
    {
        Snapshot { last_index: 0, last_term: 0 }
    }
}

impl Snapshot {
    /// The index the snapshot stands at.
    pub fn last_index(&self) -> (r: u64)
        ensures
            r == self@.last_index,
    {
        self.last_index
    }

    /// The term the snapshot stands at.
    pub fn last_term(&self) -> (r: u64)
        ensures
            r == self@.last_term,
    {
        self.last_term
    }

    pub fn set_last_index(&mut self, last_index: u64)
        ensures
            final(self)@.last_index == last_index,
            final(self)@.last_term == old(self)@.last_term,
    {
        self.last_index = last_index;
    }

    pub fn set_last_term(&mut self, last_term: u64)
        ensures
            final(self)@.last_term == last_term,
            final(self)@.last_index == old(self)@.last_index,
    {
        self.last_term = last_term;
    }
}

/// The store after one command: a write sets the key, a delete removes it,
/// a read changes nothing.
pub open spec fn apply_command(
    store: Map<Seq<u8>, Seq<u8>>,
    command: CommandView,
) -> Map<Seq<u8>, Seq<u8>> {
    match command {
        CommandView::Put(k, v) => store.insert(k, v),
        CommandView::Delete(k) => store.remove(k),
        CommandView::Get(_) => store,
    }
}

/// The store after the commands of `logs`, in order.
pub open spec fn apply_commands(
    store: Map<Seq<u8>, Seq<u8>>,
    logs: Seq<LogEntry>,
) -> Map<Seq<u8>, Seq<u8>>
    decreases logs.len(),
{
    if logs.len() == 0 {
        store
    } else {
        apply_commands(apply_command(store, logs[0].command@), logs.drop_first())
    }
}

/// Applying two runs of entries one after the other is applying them together:
/// a state machine may take committed entries in batches of any size.
pub proof fn lemma_apply_in_batches(
    store: Map<Seq<u8>, Seq<u8>>,
    first: Seq<LogEntry>,
    second: Seq<LogEntry>,
)
    ensures
        apply_commands(store, first + second) == apply_commands(
            apply_commands(store, first),
            second,
        ),
    decreases first.len(),
{
    if first.len() == 0 {
        assert(first + second =~= second);
    } else {
        assert((first + second)[0] == first[0]);
        assert((first + second).drop_first() =~= first.drop_first() + second);
        lemma_apply_in_batches(
            apply_command(store, first[0].command@),
            first.drop_first(),
            second,
        );
    }
}

/// Applying one more entry is applying its command to what the earlier ones left.
pub proof fn lemma_apply_one_more(store: Map<Seq<u8>, Seq<u8>>, logs: Seq<LogEntry>, e: LogEntry)
    ensures
        apply_commands(store, logs.push(e)) == apply_command(
            apply_commands(store, logs),
            e.command@,
        ),
{
    lemma_apply_in_batches(store, logs, seq![e]);
    assert(logs + seq![e] =~= logs.push(e));
    let mid = apply_commands(store, logs);
    assert(seq![e].drop_first() =~= Seq::<LogEntry>::empty());
    assert(apply_commands(mid, seq![e]) == apply_commands(
        apply_command(mid, e.command@),
        Seq::<LogEntry>::empty(),
    ));
}

/// A read after a write gives back what was written.
pub proof fn lemma_read_after_write(
    store: Map<Seq<u8>, Seq<u8>>,
    logs: Seq<LogEntry>,
    e: LogEntry,
    k: Seq<u8>,
    v: Seq<u8>,
)
    requires
        e.command@ == CommandView::Put(k, v),
    ensures
        apply_commands(store, logs.push(e)).contains_key(k),
        apply_commands(store, logs.push(e))[k] == v,
{
    lemma_apply_one_more(store, logs, e);
}

/// A read after a delete finds nothing.
pub proof fn lemma_read_after_delete(
    store: Map<Seq<u8>, Seq<u8>>,
    logs: Seq<LogEntry>,
    e: LogEntry,
    k: Seq<u8>,
)
    requires
        e.command@ == CommandView::Delete(k),
    ensures
        !apply_commands(store, logs.push(e)).contains_key(k),
{
    lemma_apply_one_more(store, logs, e);
}

/// A read command leaves the store as it was.
pub proof fn lemma_read_changes_nothing(
    store: Map<Seq<u8>, Seq<u8>>,
    logs: Seq<LogEntry>,
    e: LogEntry,
)
    requires
        e.command@ is Get,
    ensures
        apply_commands(store, logs.push(e)) == apply_commands(store, logs),
{
    lemma_apply_one_more(store, logs, e);
}

/// A write or delete of one key leaves every other key as it was.
pub proof fn lemma_other_keys_untouched(
    store: Map<Seq<u8>, Seq<u8>>,
    logs: Seq<LogEntry>,
    e: LogEntry,
    k: Seq<u8>,
)
    requires
        match e.command@ {
            CommandView::Put(key, _) => key != k,
            CommandView::Delete(key) => key != k,
            CommandView::Get(_) => true,
        },
    ensures
        apply_commands(store, logs.push(e)).contains_key(k) == apply_commands(
            store,
            logs,
        ).contains_key(k),
        apply_commands(store, logs).contains_key(k) ==> apply_commands(store, logs.push(e))[k]
            == apply_commands(store, logs)[k],
{
    lemma_apply_one_more(store, logs, e);
}

/// A replicated state machine: it applies committed log entries and answers
/// reads. `store` is the key-value content, `last_index` and `last_term` the
/// point of the log its snapshot stands at.
pub trait StateMachine: Sized {
    spec fn last_index(&self) -> u64;

    spec fn last_term(&self) -> u64;

    spec fn store(&self) -> Map<Seq<u8>, Seq<u8>>;

    /// The machine after it is handed the snapshot `s`.
    spec fn after_snapshot(&self, s: SnapshotView) -> Self;

    fn get_last_index(&self) -> (r: u64)
        ensures
            r == self.last_index(),
    ;

    fn get_last_term(&self) -> (r: u64)
        ensures
            r == self.last_term(),
    ;

    fn query(&self, key: K) -> (r: Option<V>)
        ensures
            self.store().contains_key(key@) ==> (r matches Some(v) && v@ == self.store()[key@]),
            !self.store().contains_key(key@) ==> r is None,
    ;

    fn apply(&mut self, logs: &[LogEntry])
        ensures
            final(self).store() == apply_commands(old(self).store(), logs@),
    ;

    fn snapshot(&self) -> (r: Snapshot)
        ensures
            r@.last_index == self.last_index(),
            r@.last_term == self.last_term(),
    ;

    fn take_a_snapshot(&mut self, snapshot: Snapshot)
        ensures
            *final(self) == old(self).after_snapshot(snapshot@),
            final(self).store() == old(self).store(),
            final(self).last_index() == old(self).last_index() || final(self).last_index()
                == snapshot@.last_index,
    ;

    fn restore_snapshot(&mut self, snapshot: Snapshot) -> std::io::Result<()>;
}

/// An in-memory key-value state machine. Its store is a vector of key-value
/// pairs, searched by key, that holds each key at most once.
#[derive(Debug)]
pub struct MemKVStateMachine {
    last_index: u64,
    last_term: u64,
    state: Vec<(K, V)>,
}

/// No key occurs twice among `pairs`.
pub open spec fn keys_distinct(pairs: Seq<(K, V)>) -> bool {
    forall|i: int, j: int|
        0 <= i < pairs.len() && 0 <= j < pairs.len() && i != j ==> pairs[i].0@ != pairs[j].0@
}

/// Whether `k` is the key of one of `pairs`.
pub open spec fn has_key(pairs: Seq<(K, V)>, k: Seq<u8>) -> bool {
    exists|i: int| 0 <= i < pairs.len() && pairs[i].0@ == k
}

/// The map that `pairs` stand for.
pub open spec fn pairs_map(pairs: Seq<(K, V)>) -> Map<Seq<u8>, Seq<u8>> {
    Map::new(
        |k: Seq<u8>| has_key(pairs, k),
        |k: Seq<u8>| pairs[choose|i: int| 0 <= i < pairs.len() && pairs[i].0@ == k].1@,
    )
}

proof fn lemma_pairs_map_at(pairs: Seq<(K, V)>, i: int)
    requires
        keys_distinct(pairs),
        0 <= i < pairs.len(),
    ensures
        pairs_map(pairs).contains_key(pairs[i].0@),
        pairs_map(pairs)[pairs[i].0@] == pairs[i].1@,
{
    let k = pairs[i].0@;
    assert(has_key(pairs, k));
    let c = choose|c: int| 0 <= c < pairs.len() && pairs[c].0@ == k;
    assert(c == i);
}

proof fn lemma_pairs_map_push(pairs: Seq<(K, V)>, k: K, v: V)
    requires
        keys_distinct(pairs),
        !has_key(pairs, k@),
    ensures
        keys_distinct(pairs.push((k, v))),
        pairs_map(pairs.push((k, v))) == pairs_map(pairs).insert(k@, v@),
{
    let p2 = pairs.push((k, v));
    assert(keys_distinct(p2)) by {
        assert forall|i: int, j: int|
            0 <= i < p2.len() && 0 <= j < p2.len() && i != j implies p2[i].0@ != p2[j].0@ by {
            if i < pairs.len() && j < pairs.len() {
                assert(p2[i] == pairs[i] && p2[j] == pairs[j]);
            } else if i < pairs.len() {
                assert(p2[i] == pairs[i]);
            } else {
                assert(p2[j] == pairs[j]);
            }
        }
    }
    let m2 = pairs_map(p2);
    let m1 = pairs_map(pairs).insert(k@, v@);
    assert forall|key: Seq<u8>| m2.contains_key(key) <==> m1.contains_key(key) by {
        if has_key(pairs, key) {
            let i = choose|i: int| 0 <= i < pairs.len() && pairs[i].0@ == key;
            assert(p2[i] == pairs[i]);
        }
        if has_key(p2, key) && key != k@ {
            let i = choose|i: int| 0 <= i < p2.len() && p2[i].0@ == key;
            assert(i < pairs.len());
            assert(p2[i] == pairs[i]);
        }
        if key == k@ {
            assert(p2[pairs.len() as int].0@ == k@);
        }
    }
    assert forall|key: Seq<u8>| m2.contains_key(key) implies m2[key] == m1[key] by {
        let i = choose|i: int| 0 <= i < p2.len() && p2[i].0@ == key;
        lemma_pairs_map_at(p2, i);
        if i < pairs.len() {
            assert(p2[i] == pairs[i]);
            lemma_pairs_map_at(pairs, i);
        }
    }
    assert(m2 =~= m1);
}

proof fn lemma_pairs_map_set(pairs: Seq<(K, V)>, i: int, k: K, v: V)
    requires
        keys_distinct(pairs),
        0 <= i < pairs.len(),
        pairs[i].0@ == k@,
    ensures
        keys_distinct(pairs.update(i, (k, v))),
        pairs_map(pairs.update(i, (k, v))) == pairs_map(pairs).insert(k@, v@),
{
    let p2 = pairs.update(i, (k, v));
    assert forall|a: int, b: int|
        0 <= a < p2.len() && 0 <= b < p2.len() && a != b implies p2[a].0@ != p2[b].0@ by {
        assert(p2[a].0@ == pairs[a].0@ && p2[b].0@ == pairs[b].0@);
    }
    let m2 = pairs_map(p2);
    let m1 = pairs_map(pairs).insert(k@, v@);
    assert forall|key: Seq<u8>| m2.contains_key(key) <==> m1.contains_key(key) by {
        if has_key(pairs, key) {
            let a = choose|a: int| 0 <= a < pairs.len() && pairs[a].0@ == key;
            assert(p2[a].0@ == key);
        }
        if has_key(p2, key) {
            let a = choose|a: int| 0 <= a < p2.len() && p2[a].0@ == key;
            assert(pairs[a].0@ == key);
        }
        if key == k@ {
            assert(p2[i].0@ == k@);
        }
    }
    assert forall|key: Seq<u8>| m2.contains_key(key) implies m2[key] == m1[key] by {
        let a = choose|a: int| 0 <= a < p2.len() && p2[a].0@ == key;
        lemma_pairs_map_at(p2, a);
        if a != i {
            assert(p2[a] == pairs[a]);
            lemma_pairs_map_at(pairs, a);
        }
    }
    assert(m2 =~= m1);
}

proof fn lemma_pairs_map_remove(pairs: Seq<(K, V)>, i: int)
    requires
        keys_distinct(pairs),
        0 <= i < pairs.len(),
    ensures
        keys_distinct(pairs.remove(i)),
        pairs_map(pairs.remove(i)) == pairs_map(pairs).remove(pairs[i].0@),
{
    let k = pairs[i].0@;
    let p2 = pairs.remove(i);
    assert forall|a: int, b: int|
        0 <= a < p2.len() && 0 <= b < p2.len() && a != b implies p2[a].0@ != p2[b].0@ by {
        let a1 = if a < i { a } else { a + 1 };
        let b1 = if b < i { b } else { b + 1 };
        assert(p2[a] == pairs[a1] && p2[b] == pairs[b1]);
    }
    let m2 = pairs_map(p2);
    let m1 = pairs_map(pairs).remove(k);
    assert forall|key: Seq<u8>| m2.contains_key(key) <==> m1.contains_key(key) by {
        if has_key(pairs, key) && key != k {
            let a = choose|a: int| 0 <= a < pairs.len() && pairs[a].0@ == key;
            assert(a != i);
            let a2 = if a < i { a } else { a - 1 };
            assert(p2[a2] == pairs[a]);
        }
        if has_key(p2, key) {
            let a = choose|a: int| 0 <= a < p2.len() && p2[a].0@ == key;
            let a1 = if a < i { a } else { a + 1 };
            assert(p2[a] == pairs[a1]);
            assert(a1 != i);
        }
    }
    assert forall|key: Seq<u8>| m2.contains_key(key) implies m2[key] == m1[key] by {
        let a = choose|a: int| 0 <= a < p2.len() && p2[a].0@ == key;
        let a1 = if a < i { a } else { a + 1 };
        assert(p2[a] == pairs[a1]);
        lemma_pairs_map_at(p2, a);
        lemma_pairs_map_at(pairs, a1);
    }
    assert(m2 =~= m1);
}

/// With distinct keys, the map has as many keys as there are pairs.
proof fn lemma_pairs_map_len(pairs: Seq<(K, V)>)
    requires
        keys_distinct(pairs),
    ensures
        pairs_map(pairs).dom().finite(),
        pairs_map(pairs).dom().len() == pairs.len(),
    decreases pairs.len(),
{
    if pairs.len() == 0 {
        assert(pairs_map(pairs).dom() =~= Set::<Seq<u8>>::empty());
    } else {
        let front = pairs.drop_last();
        let last = pairs.last();
        assert(keys_distinct(front)) by {
            assert forall|i: int, j: int|
                0 <= i < front.len() && 0 <= j < front.len() && i != j implies front[i].0@
                != front[j].0@ by {
                assert(front[i] == pairs[i] && front[j] == pairs[j]);
            }
        }
        assert(!has_key(front, last.0@)) by {
            if has_key(front, last.0@) {
                let i = choose|i: int| 0 <= i < front.len() && front[i].0@ == last.0@;
                assert(front[i] == pairs[i]);
                assert(pairs[pairs.len() - 1] == last);
            }
        }
        lemma_pairs_map_len(front);
        lemma_pairs_map_push(front, last.0, last.1);
        assert(front.push((last.0, last.1)) =~= pairs);
        assert(pairs_map(pairs).dom() =~= pairs_map(front).dom().insert(last.0@));
    }
}

impl MemKVStateMachine {
    /// Whether two pair lists, each with distinct keys, stand for the same map.
    fn same_pairs(a: &Vec<(K, V)>, b: &Vec<(K, V)>) -> (r: bool)
        requires
            keys_distinct(a@),
            keys_distinct(b@),
        ensures
            r == (pairs_map(a@) == pairs_map(b@)),
    {
        proof {
            lemma_pairs_map_len(a@);
            lemma_pairs_map_len(b@);
        }
        if a.len() != b.len() {
            return false;
        }
        let n = a.len();
        let mut i: usize = 0;
        while i < n
            invariant
                n == a@.len(),
                n == b@.len(),
                i <= n,
                keys_distinct(a@),
                keys_distinct(b@),
                forall|j: int|
                    0 <= j < i ==> pairs_map(b@).contains_key(#[trigger] a@[j].0@) && pairs_map(
                        b@,
                    )[a@[j].0@] == a@[j].1@,
            decreases n - i,
        {
            proof {
                lemma_pairs_map_at(a@, i as int);
            }
            match Self::find(b, &a[i].0) {
                Some(j) => {
                    proof {
                        lemma_pairs_map_at(b@, j as int);
                    }
                    if !a[i].1.same_value(&b[j].1) {
                        return false;
                    }
                },
                None => {
                    return false;
                },
            }
            i = i + 1;
        }
        proof {
            let da = pairs_map(a@).dom();
            let db = pairs_map(b@).dom();
            assert(da.subset_of(db)) by {
                assert forall|k: Seq<u8>| da.contains(k) implies db.contains(k) by {
                    let j = choose|j: int| 0 <= j < a@.len() && a@[j].0@ == k;
                }
            }
            vstd::set_lib::lemma_subset_equality(da, db);
            assert forall|k: Seq<u8>| #[trigger] pairs_map(a@).contains_key(k) implies pairs_map(
                a@,
            )[k] == pairs_map(b@)[k] by {
                let j = choose|j: int| 0 <= j < a@.len() && a@[j].0@ == k;
                lemma_pairs_map_at(a@, j);
            }
            assert(pairs_map(a@) =~= pairs_map(b@));
        }
        true
    }

    #[verifier::type_invariant]
    closed spec fn pairs_wf(self) -> bool {
        keys_distinct(self.state@)
    }

    /// The position of `key` among the pairs, if it is there.
    fn find(pairs: &Vec<(K, V)>, key: &K) -> (r: Option<usize>)
        ensures
            r matches Some(i) ==> i < pairs@.len() && pairs@[i as int].0@ == key@,
            r is None ==> !has_key(pairs@, key@),
    {
        let n = pairs.len();
        let mut i: usize = 0;
        while i < n
            invariant
                n == pairs@.len(),
                i <= n,
                forall|j: int| 0 <= j < i ==> pairs@[j].0@ != key@,
            decreases n - i,
        {
            if pairs[i].0.same_key(key) {
                return Some(i);
            }
            i = i + 1;
        }
        None
    }

    /// The pairs after writing `v` under `k`.
    fn put_pair(pairs: Vec<(K, V)>, k: K, v: V) -> (r: Vec<(K, V)>)
        requires
            keys_distinct(pairs@),
        ensures
            keys_distinct(r@),
            pairs_map(r@) == pairs_map(pairs@).insert(k@, v@),
    {
        let mut pairs = pairs;
        match Self::find(&pairs, &k) {
            Some(i) => {
                proof {
                    lemma_pairs_map_set(pairs@, i as int, k, v);
                }
                pairs.set(i, (k, v));
            },
            None => {
                proof {
                    lemma_pairs_map_push(pairs@, k, v);
                }
                pairs.push((k, v));
            },
        }
        pairs
    }

    /// The pairs after removing the key `k`.
    fn delete_pair(pairs: Vec<(K, V)>, k: &K) -> (r: Vec<(K, V)>)
        requires
            keys_distinct(pairs@),
        ensures
            keys_distinct(r@),
            pairs_map(r@) == pairs_map(pairs@).remove(k@),
    {
        let mut pairs = pairs;
        match Self::find(&pairs, k) {
            Some(i) => {
                proof {
                    lemma_pairs_map_remove(pairs@, i as int);
                }
                pairs.remove(i);
            },
            None => {
                assert(pairs_map(pairs@) =~= pairs_map(pairs@).remove(k@));
            },
        }
        pairs
    }
}

/// Handing the machine a snapshot that lies beyond it in both index and term
/// moves its snapshot point there; any other snapshot leaves it where it was.
pub proof fn lemma_snapshot_taken_when_newer(m: MemKVStateMachine, s: SnapshotView)
    ensures
        s.last_index > m.last_index() && s.last_term > m.last_term() ==> m.after_snapshot(
            s,
        ).last_index() == s.last_index && m.after_snapshot(s).last_term() == s.last_term,
        !(s.last_index > m.last_index() && s.last_term > m.last_term()) ==> m.after_snapshot(s)
            == m,
        m.after_snapshot(s).store() == m.store(),
{
}

/// Handing the machine a snapshot never moves its snapshot point past the
/// snapshot's index, nor back, and keeps the store.
pub proof fn lemma_snapshot_stays_within(m: MemKVStateMachine, s: SnapshotView)
    requires
        m.last_index() <= s.last_index,
    ensures
        m.last_index() <= m.after_snapshot(s).last_index() <= s.last_index,
        m.after_snapshot(s).store() == m.store(),
{
}

impl PartialEq for MemKVStateMachine {
    fn eq(&self, other: &Self) -> (r: bool) {
        proof {
            use_type_invariant(self);
            use_type_invariant(other);
        }
        self.last_index == other.last_index && self.last_term == other.last_term
            && Self::same_pairs(&self.state, &other.state)
    }
}

impl vstd::std_specs::cmp::PartialEqSpecImpl for MemKVStateMachine {
    open spec fn obeys_eq_spec() -> bool {
        true
    }

    /// Two machines are equal when their snapshot points and their stores are.
    open spec fn eq_spec(&self, other: &Self) -> bool {
        &&& self.last_index() == other.last_index()
        &&& self.last_term() == other.last_term()
        &&& self.store() == other.store()
    }
}

impl Default for MemKVStateMachine {
    fn default() -> (r: Self)
        ensures
            r.last_index() == 0,
            r.last_term() == 0,
            r.store() == Map::<Seq<u8>, Seq<u8>>::empty(),
    {
        let r = MemKVStateMachine { last_index: 0, last_term: 0, state: Vec::new() };
        assert(pairs_map(r.state@) =~= Map::<Seq<u8>, Seq<u8>>::empty());
        r
    }
}

impl StateMachine for MemKVStateMachine {
    closed spec fn last_index(&self) -> u64 {
        self.last_index
    }

    closed spec fn last_term(&self) -> u64 {
        self.last_term
    }

    closed spec fn store(&self) -> Map<Seq<u8>, Seq<u8>> {
        pairs_map(self.state@)
    }

    /// The snapshot point moves to `s` when both its index and its term lie
    /// beyond the current ones; nothing else changes.
    closed spec fn after_snapshot(&self, s: SnapshotView) -> Self {
        if s.last_index > self.last_index && s.last_term > self.last_term {
            MemKVStateMachine { last_index: s.last_index, last_term: s.last_term, state: self.state }
        } else {
            *self
        }
    }

    fn get_last_index(&self) -> (r: u64) {
        self.last_index
    }

    fn get_last_term(&self) -> (r: u64) {
        self.last_term
    }

    fn query(&self, key: K) -> (r: Option<V>) {
        proof {
            use_type_invariant(self);
        }
        match Self::find(&self.state, &key) {
            Some(i) => {
                proof {
                    lemma_pairs_map_at(self.state@, i as int);
                }
                Some(self.state[i].1.clone())
            },
            None => None,
        }
    }

    fn apply(&mut self, logs: &[LogEntry])
        ensures
            final(self).last_index() == old(self).last_index(),
            final(self).last_term() == old(self).last_term(),
    {
        proof {
            use_type_invariant(&*self);
        }
        let ghost entries = logs@;
        let ghost goal = apply_commands(pairs_map(self.state@), entries);
        let mut pairs: Vec<(K, V)> = Vec::new();
        std::mem::swap(&mut pairs, &mut self.state);
        assert(entries.skip(0) =~= entries);
        let n = logs.len();
        let mut i: usize = 0;
        while i < n
            invariant
                n == entries.len(),
                logs@ == entries,
                i <= n,
                keys_distinct(pairs@),
                apply_commands(pairs_map(pairs@), entries.skip(i as int)) == goal,
            decreases n - i,
        {
            assert(entries.skip(i as int)[0] == entries[i as int]);
            assert(entries.skip(i as int).drop_first() =~= entries.skip(i + 1));
            match &logs[i].command {
                Command::PUT(k, v) => {
                    pairs = Self::put_pair(pairs, k.clone(), v.clone());
                },
                Command::DELETE(k) => {
                    pairs = Self::delete_pair(pairs, k);
                },
                _ => {},
            }
            i = i + 1;
        }
        assert(entries.skip(n as int) =~= Seq::<LogEntry>::empty());
        self.state = pairs;
    }

    fn snapshot(&self) -> (r: Snapshot) {
        Snapshot { last_index: self.last_index, last_term: self.last_term }
    }

    /// Moves the snapshot point forward, and only when both the index and
    /// the term of `snapshot` lie beyond the current ones.
    fn take_a_snapshot(&mut self, snapshot: Snapshot)
        ensures
            snapshot@.last_index > old(self).last_index() && snapshot@.last_term > old(
                self,
            ).last_term() ==> final(self).last_index() == snapshot@.last_index
                && final(self).last_term() == snapshot@.last_term,
            !(snapshot@.last_index > old(self).last_index() && snapshot@.last_term > old(
                self,
            ).last_term()) ==> final(self).last_index() == old(self).last_index()
                && final(self).last_term() == old(self).last_term(),
            final(self).store() == old(self).store(),
            final(self).last_index() >= old(self).last_index(),
            final(self).last_term() >= old(self).last_term(),
    {
        proof {
            use_type_invariant(&*self);
        }
        if snapshot.last_index > self.get_last_index() && snapshot.last_term > self.last_term {
            self.last_index = snapshot.last_index;
            self.last_term = snapshot.last_term;
        }
    }

    fn restore_snapshot(&mut self, _snapshot: Snapshot) -> (r: std::io::Result<()>)
        ensures
            r is Ok,
            final(self).last_index() == old(self).last_index(),
            final(self).last_term() == old(self).last_term(),
            final(self).store() == old(self).store(),
    {
        Ok(())
    }
}

} // verus!
