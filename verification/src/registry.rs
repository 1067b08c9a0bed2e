//! The channel registry: which subscriber is joined to which channel.
//!
//! A subscriber is named by a stable connection identifier; its outbound
//! sink lives with the transport, outside this crate. The registry is the
//! broker's only cross-connection state: the caller serializes access to it
//! and never holds it locked across I/O, which its operations make easy —
//! each is a short read-modify-write of the map, and a publisher works from
//! the point-in-time copy that [`Registry::snapshot`] hands out.
//!
//! A channel exists for a publisher exactly while it has at least one
//! subscriber: removing the last subscriber removes the channel, and a
//! publish to it then reports "no such channel" again.
use vstd::prelude::*;

verus! {

/// One channel: its name and the subscribers currently joined to it.
struct ChannelEntry {
    name: String,
    subscribers: Vec<u64>,
}

/// The subscribers registered under `name`, walking `channels` front to
/// back; empty if no entry carries the name.
spec fn subs_of(channels: Seq<ChannelEntry>, name: Seq<char>) -> Seq<u64>
    decreases channels.len(),
{
    if channels.len() == 0 {
        Seq::empty()
    } else if channels[0].name@ == name {
        channels[0].subscribers@
    } else {
        subs_of(channels.drop_first(), name)
    }
}

/// No identifier appears twice.
pub open spec fn distinct_ids(s: Seq<u64>) -> bool {
    forall|a: int, b: int| 0 <= a < b < s.len() ==> s[a] != s[b]
}

/// How one subscribe changes a channel's subscriber list: a subscriber
/// already joined is left alone, a new one is appended.
pub open spec fn subscribe_model(subs: Seq<u64>, id: u64) -> Seq<u64> {
    if subs.contains(id) {
        subs
    } else {
        subs.push(id)
    }
}

/// Keeps everyone but `id`.
pub open spec fn other_than(id: u64) -> spec_fn(u64) -> bool {
    |x: u64| x != id
}

/// Keeps everyone not listed in `failed`.
pub open spec fn outside(failed: Seq<u64>) -> spec_fn(u64) -> bool {
    |x: u64| !failed.contains(x)
}

/// How removing one subscriber changes a channel's subscriber list: its
/// entry goes, everyone else keeps their order.
pub open spec fn remove_model(subs: Seq<u64>, id: u64) -> Seq<u64> {
    subs.filter(other_than(id))
}

/// How pruning a set of failed subscribers changes a channel's subscriber
/// list: exactly the failed ones go, everyone else keeps their order.
pub open spec fn prune_model(subs: Seq<u64>, failed: Seq<u64>) -> Seq<u64> {
    subs.filter(outside(failed))
}

/// The mapping from channel name to current subscribers.
pub struct Registry {
    channels: Vec<ChannelEntry>,
}

impl Registry {
    /// The subscribers of the channel named `name`; empty when the channel
    /// is unknown.
    pub closed spec fn subscribers_of(self, name: Seq<char>) -> Seq<u64> {
        subs_of(self.channels@, name)
    }

    /// A channel exists for a publisher exactly when someone subscribes to it.
    pub open spec fn has_channel(self, name: Seq<char>) -> bool {
        self.subscribers_of(name).len() > 0
    }

    /// The registry's internal shape: channel names are unique, no channel
    /// is kept once empty, and no subscriber is listed twice in a channel.
    pub closed spec fn wf(self) -> bool {
        let cs = self.channels@;
        &&& forall|i: int, j: int| 0 <= i < j < cs.len() ==> cs[i].name@ != cs[j].name@
        &&& forall|i: int| 0 <= i < cs.len() ==> cs[i].subscribers@.len() > 0
        &&& forall|i: int| 0 <= i < cs.len() ==> distinct_ids(cs[i].subscribers@)
    }

    /// An empty registry: no channel has any subscriber.
    pub fn new() -> (r: Registry)
        ensures
            r.wf(),
            forall|n: Seq<char>| r.subscribers_of(n) == Seq::<u64>::empty(),
    {
        Registry { channels: Vec::new() }
    }

    /// Index of the entry named `name`, if one is there.
    fn find_channel(&self, name: &String) -> (r: Option<usize>)
        ensures
            r matches Some(i) ==> i < self.channels@.len() && self.channels@[i as int].name@
                == name@ && (forall|j: int| 0 <= j < i ==> self.channels@[j].name@ != name@),
            r is None ==> forall|j: int|
                0 <= j < self.channels@.len() ==> self.channels@[j].name@ != name@,
    {
        let n = self.channels.len();
        let mut k: usize = 0;
        while k < n
            invariant
                n == self.channels@.len(),
                k <= n,
                forall|j: int| 0 <= j < k ==> self.channels@[j].name@ != name@,
            decreases n - k,
        {
            if self.channels[k].name == *name {
                return Some(k);
            }
            k = k + 1;
        }
        None
    }

    /// Joins `id` to the channel named `name`, creating the channel if it is
    /// unknown. Idempotent: a subscriber already joined is not added twice.
    /// No other channel changes.
    pub fn subscribe(&mut self, name: &String, id: u64)
        requires
            old(self).wf(),
        ensures
            final(self).wf(),
            final(self).subscribers_of(name@) == subscribe_model(
                old(self).subscribers_of(name@),
                id,
            ),
            forall|n: Seq<char>|
                #![trigger final(self).subscribers_of(n)]
                n != name@ ==> final(self).subscribers_of(n) == old(self).subscribers_of(n),
    {
        let ghost cs0 = self.channels@;
        match self.find_channel(name) {
            Some(i) => {
                proof {
                    lemma_subs_of_found(cs0, name@, i as int);
                }
                if contains_id(&self.channels[i].subscribers, id) {
                    // Already joined: the registry is unchanged.
                } else {
                    let mut e = self.channels.remove(i);
                    e.subscribers.push(id);
                    self.channels.insert(i, e);
                    proof {
                        assert(self.channels@ =~= cs0.update(i as int, self.channels@[i as int]));
                        lemma_subs_of_found(self.channels@, name@, i as int);
                        assert forall|n: Seq<char>| n != name@ implies #[trigger] subs_of(
                            self.channels@,
                            n,
                        ) == subs_of(cs0, n) by {
                            lemma_subs_of_update_other(
                                cs0,
                                i as int,
                                self.channels@[i as int],
                                n,
                            );
                        }
                        assert(subs_of(cs0, name@).push(id) == subscribe_model(
                            subs_of(cs0, name@),
                            id,
                        ));
                    }
                }
            },
            None => {
                proof {
                    lemma_subs_of_absent(cs0, name@);
                }
                let mut subs: Vec<u64> = Vec::new();
                subs.push(id);
                self.channels.push(ChannelEntry { name: name.clone(), subscribers: subs });
                proof {
                    lemma_subs_of_found(self.channels@, name@, cs0.len() as int);
                    assert(self.channels@[cs0.len() as int].subscribers@ =~= seq![id]);
                    assert(subscribe_model(Seq::<u64>::empty(), id) =~= seq![id]);
                    assert forall|n: Seq<char>| n != name@ implies #[trigger] subs_of(
                        self.channels@,
                        n,
                    ) == subs_of(cs0, n) by {
                        lemma_subs_of_push_other(cs0, self.channels@[cs0.len() as int], n);
                    }
                }
            },
        }
    }

    /// A point-in-time copy of the subscribers of the channel named `name`,
    /// independent of every later mutation; `None` exactly when the channel
    /// is unknown — to a publisher, an empty channel and an absent one are
    /// the same "no such channel".
    pub fn snapshot(&self, name: &String) -> (r: Option<Vec<u64>>)
        requires
            self.wf(),
        ensures
            match r {
                Some(v) => v@ == self.subscribers_of(name@) && self.has_channel(name@),
                None => !self.has_channel(name@),
            },
    {
        match self.find_channel(name) {
            Some(i) => {
                proof {
                    lemma_subs_of_found(self.channels@, name@, i as int);
                }
                let v = clone_ids(&self.channels[i].subscribers);
                Some(v)
            },
            None => {
                proof {
                    lemma_subs_of_absent(self.channels@, name@);
                }
                None
            },
        }
    }

    /// Takes `id` out of the channel named `name`; if it was the channel's
    /// last subscriber the channel itself goes. No other channel changes,
    /// and an unknown name changes nothing.
    pub fn remove(&mut self, name: &String, id: u64)
        requires
            old(self).wf(),
        ensures
            final(self).wf(),
            final(self).subscribers_of(name@) == remove_model(old(self).subscribers_of(name@), id),
            forall|n: Seq<char>|
                #![trigger final(self).subscribers_of(n)]
                n != name@ ==> final(self).subscribers_of(n) == old(self).subscribers_of(n),
    {
        let ghost cs0 = self.channels@;
        match self.find_channel(name) {
            Some(i) => {
                proof {
                    lemma_subs_of_found(cs0, name@, i as int);
                }
                let filtered = filter_ids(&self.channels[i].subscribers, id);
                if filtered.len() == 0 {
                    self.channels.remove(i);
                    proof {
                        assert(self.channels@ =~= cs0.remove(i as int));
                        assert forall|j: int|
                            0 <= j < self.channels@.len() implies self.channels@[j].name@
                            != name@ by {
                            if j < i {
                                assert(self.channels@[j] == cs0[j]);
                            } else {
                                assert(self.channels@[j] == cs0[j + 1]);
                            }
                        }
                        lemma_subs_of_absent(self.channels@, name@);
                        assert(remove_model(subs_of(cs0, name@), id) =~= Seq::<u64>::empty());
                        assert forall|n: Seq<char>| n != name@ implies #[trigger] subs_of(
                            self.channels@,
                            n,
                        ) == subs_of(cs0, n) by {
                            lemma_subs_of_remove_other(cs0, i as int, n);
                        }
                    }
                } else {
                    let mut e = self.channels.remove(i);
                    e.subscribers = filtered;
                    self.channels.insert(i, e);
                    proof {
                        assert(self.channels@ =~= cs0.update(i as int, self.channels@[i as int]));
                        lemma_subs_of_found(self.channels@, name@, i as int);
                        lemma_filter_distinct(cs0[i as int].subscribers@, other_than(id));
                        assert forall|n: Seq<char>| n != name@ implies #[trigger] subs_of(
                            self.channels@,
                            n,
                        ) == subs_of(cs0, n) by {
                            lemma_subs_of_update_other(
                                cs0,
                                i as int,
                                self.channels@[i as int],
                                n,
                            );
                        }
                    }
                }
            },
            None => {
                proof {
                    lemma_subs_of_absent(cs0, name@);
                    lemma_filter_empty(other_than(id));
                }
            },
        }
    }

    /// Takes `id` out of every channel it had joined — the cleanup when its
    /// connection ends. Channels left empty go; everyone else stays put.
    pub fn remove_everywhere(&mut self, id: u64)
        requires
            old(self).wf(),
        ensures
            final(self).wf(),
            forall|n: Seq<char>|
                #![trigger final(self).subscribers_of(n)]
                final(self).subscribers_of(n) == remove_model(old(self).subscribers_of(n), id),
    {
        let ghost cs0 = self.channels@;
        let n = self.channels.len();
        let mut out: Vec<ChannelEntry> = Vec::new();
        let mut k: usize = 0;
        while k < n
            invariant
                old(self).wf(),
                cs0 == old(self).channels@,
                n == cs0.len(),
                k <= n,
                self.channels@ == cs0,
                forall|i: int, j: int|
                    0 <= i < j < out@.len() ==> out@[i].name@ != out@[j].name@,
                forall|i: int| 0 <= i < out@.len() ==> out@[i].subscribers@.len() > 0,
                forall|i: int| 0 <= i < out@.len() ==> distinct_ids(out@[i].subscribers@),
                forall|nm: Seq<char>| #[trigger]
                    subs_of(out@, nm) == remove_model(subs_of(cs0.take(k as int), nm), id),
            decreases n - k,
        {
            let ghost out0 = out@;
            let e = &self.channels[k];
            let filtered = filter_ids(&e.subscribers, id);
            proof {
                lemma_filter_distinct(e.subscribers@, other_than(id));
                // The current entry's name is fresh: it appears neither later
                // in the prefix already folded in, nor (hence) in `out`.
                assert forall|j: int| 0 <= j < k implies cs0.take(k as int)[j].name@ != cs0[k as int].name@
                    by {}
                lemma_subs_of_absent(cs0.take(k as int), cs0[k as int].name@);
                lemma_filter_empty(other_than(id));
                lemma_subs_of_no_name(out0, cs0[k as int].name@);
            }
            if filtered.len() > 0 {
                out.push(ChannelEntry { name: e.name.clone(), subscribers: filtered });
                proof {
                    lemma_subs_of_found(out@, cs0[k as int].name@, out0.len() as int);
                }
            }
            k = k + 1;
            proof {
                assert(cs0.take(k as int) =~= cs0.take(k as int - 1).push(cs0[k as int - 1]));
                assert forall|nm: Seq<char>| #[trigger] subs_of(out@, nm) == remove_model(
                    subs_of(cs0.take(k as int), nm),
                    id,
                ) by {
                    let prev = cs0.take(k as int - 1);
                    if nm == cs0[k as int - 1].name@ {
                        lemma_subs_of_found(
                            cs0.take(k as int),
                            nm,
                            k as int - 1,
                        );
                    } else {
                        lemma_subs_of_push_other(prev, cs0[k as int - 1], nm);
                        if out@.len() > out0.len() {
                            lemma_subs_of_push_other(out0, out@[out0.len() as int], nm);
                        }
                    }
                }
            }
        }
        self.channels = out;
        proof {
            assert(cs0.take(n as int) =~= cs0);
        }
    }
}

/// Whether `id` is among `v`.
fn contains_id(v: &Vec<u64>, id: u64) -> (r: bool)
    ensures
        r == v@.contains(id),
{
    let n = v.len();
    let mut k: usize = 0;
    while k < n
        invariant
            n == v@.len(),
            k <= n,
            forall|j: int| 0 <= j < k ==> v@[j] != id,
        decreases n - k,
    {
        if v[k] == id {
            return true;
        }
        k = k + 1;
    }
    false
}

/// A copy of `v`.
fn clone_ids(v: &Vec<u64>) -> (r: Vec<u64>)
    ensures
        r@ == v@,
{
    let n = v.len();
    let mut r: Vec<u64> = Vec::new();
    let mut k: usize = 0;
    while k < n
        invariant
            n == v@.len(),
            k <= n,
            r@ == v@.take(k as int),
        decreases n - k,
    {
        r.push(v[k]);
        k = k + 1;
        proof {
            assert(v@.take(k as int) =~= v@.take(k as int - 1).push(v@[k as int - 1]));
        }
    }
    proof {
        assert(v@.take(n as int) =~= v@);
    }
    r
}

/// Everyone in `v` but `id`, order kept.
fn filter_ids(v: &Vec<u64>, id: u64) -> (r: Vec<u64>)
    ensures
        r@ == v@.filter(other_than(id)),
{
    let ghost pred = other_than(id);
    proof {
        lemma_filter_empty(pred);
    }
    let n = v.len();
    let mut r: Vec<u64> = Vec::new();
    let mut k: usize = 0;
    while k < n
        invariant
            n == v@.len(),
            k <= n,
            r@ == v@.take(k as int).filter(pred),
            pred == (|x: u64| x != id),
        decreases n - k,
    {
        if v[k] != id {
            r.push(v[k]);
        }
        k = k + 1;
        proof {
            assert(v@.take(k as int) =~= v@.take(k as int - 1).push(v@[k as int - 1]));
            lemma_filter_push(v@.take(k as int - 1), v@[k as int - 1], pred);
        }
    }
    proof {
        assert(v@.take(n as int) =~= v@);
    }
    r
}

/// Law: subscribing is idempotent. A second subscribe of the same
/// subscriber to the same channel leaves the channel's subscriber list —
/// and so its size — exactly as the first left it.
pub proof fn lemma_subscribe_idempotent(subs: Seq<u64>, id: u64)
    ensures
        subscribe_model(subscribe_model(subs, id), id) == subscribe_model(subs, id),
{
    if !subs.contains(id) {
        assert(subs.push(id)[subs.len() as int] == id);
    }
}

/// Law: the first subscriber of a never-subscribed channel is afterwards
/// its entire subscriber list.
pub proof fn lemma_first_subscribe(id: u64)
    ensures
        subscribe_model(Seq::<u64>::empty(), id) =~= seq![id],
{
}

/// Law: removing a subscriber undoes its subscribe. In particular, a
/// subscriber that joins a channel nobody else is on and then leaves
/// takes the channel with it: the list is empty again.
pub proof fn lemma_remove_after_subscribe(subs: Seq<u64>, id: u64)
    ensures
        remove_model(subscribe_model(subs, id), id) == remove_model(subs, id),
        remove_model(subscribe_model(Seq::<u64>::empty(), id), id) == Seq::<u64>::empty(),
{
    if !subs.contains(id) {
        lemma_filter_push(subs, id, other_than(id));
    }
    lemma_filter_push(Seq::<u64>::empty(), id, other_than(id));
    lemma_filter_empty(other_than(id));
    assert(!Seq::<u64>::empty().contains(id));
}

/// Law: pruning failed subscribers is isolated. Every subscriber whose
/// delivery failed leaves the channel; every other subscriber stays.
pub proof fn lemma_prune_isolation(subs: Seq<u64>, failed: Seq<u64>, id: u64)
    ensures
        subs.contains(id) && !failed.contains(id) ==> prune_model(subs, failed).contains(id),
        failed.contains(id) ==> !prune_model(subs, failed).contains(id),
{
    if subs.contains(id) && !failed.contains(id) {
        lemma_filter_keeps(subs, outside(failed), id);
    }
    if failed.contains(id) {
        lemma_filter_membership(subs, outside(failed), id);
    }
}

/// Pruning nobody changes nothing.
pub proof fn lemma_prune_nothing(subs: Seq<u64>)
    ensures
        prune_model(subs, Seq::<u64>::empty()) == subs,
{
    lemma_filter_all(subs, outside(Seq::<u64>::empty()));
}

/// Pruning the failed subscribers one by one, front to back, prunes them
/// as a set: one more single removal extends the pruned prefix by one.
pub proof fn lemma_prune_step(subs: Seq<u64>, failed: Seq<u64>, k: int)
    requires
        0 <= k < failed.len(),
    ensures
        remove_model(prune_model(subs, failed.take(k)), failed[k]) == prune_model(
            subs,
            failed.take(k + 1),
        ),
{
    assert forall|x: u64|
        #[trigger] (outside(failed.take(k + 1)))(x) == ((outside(failed.take(k)))(x) && (
        other_than(failed[k]))(x)) by {
        assert(failed.take(k + 1) =~= failed.take(k).push(failed[k]));
        if failed.take(k + 1).contains(x) {
            let j = choose|j: int| 0 <= j < k + 1 && #[trigger] failed.take(k + 1)[j] == x;
            if j < k {
                assert(failed.take(k)[j] == x);
            }
        }
        if failed.take(k).contains(x) {
            let j = choose|j: int| 0 <= j < k && #[trigger] failed.take(k)[j] == x;
            assert(failed.take(k + 1)[j] == x);
        }
        if x == failed[k] {
            assert(failed.take(k + 1)[k] == x);
        }
    }
    lemma_filter_compose(subs, outside(failed.take(k)), other_than(failed[k]), outside(failed.take(k + 1)));
}

/// Filtering distributes over appending one element.
proof fn lemma_filter_push(s: Seq<u64>, x: u64, pred: spec_fn(u64) -> bool)
    ensures
        s.push(x).filter(pred) == if pred(x) {
            s.filter(pred).push(x)
        } else {
            s.filter(pred)
        },
{
    reveal(Seq::filter);
    assert(s.push(x).drop_last() =~= s);
}

/// Filtering the empty sequence gives the empty sequence.
proof fn lemma_filter_empty(pred: spec_fn(u64) -> bool)
    ensures
        Seq::<u64>::empty().filter(pred) == Seq::<u64>::empty(),
{
    reveal(Seq::filter);
}

/// Whatever was there and passes the filter is kept.
proof fn lemma_filter_keeps(s: Seq<u64>, pred: spec_fn(u64) -> bool, x: u64)
    requires
        s.contains(x),
        pred(x),
    ensures
        s.filter(pred).contains(x),
    decreases s.len(),
{
    reveal(Seq::filter);
    if s.last() == x {
        if pred(s.last()) {
            let f = s.drop_last().filter(pred);
            assert(f.push(x)[f.len() as int] == x);
        }
    } else {
        let j = choose|j: int| 0 <= j < s.len() && s[j] == x;
        assert(s.drop_last()[j] == x);
        lemma_filter_keeps(s.drop_last(), pred, x);
        if pred(s.last()) {
            let f = s.drop_last().filter(pred);
            let i = choose|i: int| 0 <= i < f.len() && f[i] == x;
            assert(f.push(s.last())[i] == x);
        }
    }
}

/// A filter that keeps everything changes nothing.
proof fn lemma_filter_all(s: Seq<u64>, pred: spec_fn(u64) -> bool)
    requires
        forall|j: int| 0 <= j < s.len() ==> pred(#[trigger] s[j]),
    ensures
        s.filter(pred) == s,
    decreases s.len(),
{
    reveal(Seq::filter);
    if s.len() > 0 {
        assert forall|j: int| 0 <= j < s.drop_last().len() implies pred(
            #[trigger] s.drop_last()[j],
        ) by {
            assert(s.drop_last()[j] == s[j]);
        }
        lemma_filter_all(s.drop_last(), pred);
        assert(pred(s[s.len() - 1]));
        assert(s.drop_last().push(s.last()) =~= s);
    }
}

/// Two filters in a row are the filter by the conjunction.
proof fn lemma_filter_compose(
    s: Seq<u64>,
    p: spec_fn(u64) -> bool,
    q: spec_fn(u64) -> bool,
    r: spec_fn(u64) -> bool,
)
    requires
        forall|x: u64| #[trigger] r(x) == (p(x) && q(x)),
    ensures
        s.filter(p).filter(q) == s.filter(r),
    decreases s.len(),
{
    reveal(Seq::filter);
    if s.len() > 0 {
        lemma_filter_compose(s.drop_last(), p, q, r);
        lemma_filter_push(s.drop_last().filter(p), s.last(), q);
    } else {
        lemma_filter_empty(q);
    }
}

/// Whatever a filter keeps was already there.
proof fn lemma_filter_membership(s: Seq<u64>, pred: spec_fn(u64) -> bool, x: u64)
    ensures
        s.filter(pred).contains(x) ==> s.contains(x) && pred(x),
    decreases s.len(),
{
    reveal(Seq::filter);
    if s.len() > 0 {
        lemma_filter_membership(s.drop_last(), pred, x);
        if s.filter(pred).contains(x) {
            if pred(s.last()) && x == s.last() {
                assert(s.contains(x)) by {
                    assert(s[s.len() - 1] == x);
                }
            } else {
                assert(s.drop_last().filter(pred).contains(x));
                let j = choose|j: int|
                    0 <= j < s.drop_last().len() && s.drop_last()[j] == x;
                assert(s[j] == x);
            }
        }
    }
}

/// Filtering keeps a duplicate-free sequence duplicate-free.
proof fn lemma_filter_distinct(s: Seq<u64>, pred: spec_fn(u64) -> bool)
    requires
        distinct_ids(s),
    ensures
        distinct_ids(s.filter(pred)),
    decreases s.len(),
{
    reveal(Seq::filter);
    if s.len() > 0 {
        assert(distinct_ids(s.drop_last())) by {
            assert(forall|a: int, b: int|
                0 <= a < b < s.drop_last().len() ==> s[a] != s[b]);
        }
        lemma_filter_distinct(s.drop_last(), pred);
        if pred(s.last()) {
            let f = s.drop_last().filter(pred);
            assert(!f.contains(s.last())) by {
                lemma_filter_membership(s.drop_last(), pred, s.last());
                if s.drop_last().contains(s.last()) {
                    let j = choose|j: int|
                        0 <= j < s.drop_last().len() && s.drop_last()[j] == s.last();
                    assert(s[j] == s[s.len() - 1]);
                }
            }
            assert forall|a: int, b: int|
                0 <= a < b < f.push(s.last()).len() implies f.push(s.last())[a] != f.push(
                s.last(),
            )[b] by {
                if b < f.len() {
                } else {
                    assert(f.push(s.last())[b] == s.last());
                    assert(f.contains(f[a])) by {
                        assert(f[a] == f[a]);
                    }
                }
            }
        }
    }
}

/// Skipping entries whose names all differ from `name` leaves `subs_of` alone.
proof fn lemma_subs_of_skip(cs: Seq<ChannelEntry>, name: Seq<char>, i: int)
    requires
        0 <= i <= cs.len(),
        forall|j: int| 0 <= j < i ==> cs[j].name@ != name,
    ensures
        subs_of(cs, name) == subs_of(cs.skip(i), name),
    decreases i,
{
    if i > 0 {
        assert(cs.drop_first().skip(i - 1) =~= cs.skip(i));
        assert forall|j: int| 0 <= j < i - 1 implies cs.drop_first()[j].name@ != name by {
            assert(cs.drop_first()[j] == cs[j + 1]);
        }
        lemma_subs_of_skip(cs.drop_first(), name, i - 1);
    } else {
        assert(cs.skip(0) =~= cs);
    }
}

/// When `cs[i]` is the first entry named `name`, it decides `subs_of`.
proof fn lemma_subs_of_found(cs: Seq<ChannelEntry>, name: Seq<char>, i: int)
    requires
        0 <= i < cs.len(),
        cs[i].name@ == name,
        forall|j: int| 0 <= j < i ==> cs[j].name@ != name,
    ensures
        subs_of(cs, name) == cs[i].subscribers@,
{
    lemma_subs_of_skip(cs, name, i);
    assert(cs.skip(i)[0] == cs[i]);
}

/// A name no entry carries has no subscribers.
proof fn lemma_subs_of_absent(cs: Seq<ChannelEntry>, name: Seq<char>)
    requires
        forall|j: int| 0 <= j < cs.len() ==> cs[j].name@ != name,
    ensures
        subs_of(cs, name) == Seq::<u64>::empty(),
{
    lemma_subs_of_skip(cs, name, cs.len() as int);
}

/// When no subscriber is registered under `name` and no entry is empty,
/// no entry carries `name` at all.
proof fn lemma_subs_of_no_name(cs: Seq<ChannelEntry>, name: Seq<char>)
    requires
        forall|i: int| 0 <= i < cs.len() ==> cs[i].subscribers@.len() > 0,
        subs_of(cs, name).len() == 0,
    ensures
        forall|j: int| 0 <= j < cs.len() ==> cs[j].name@ != name,
    decreases cs.len(),
{
    if cs.len() > 0 {
        if cs[0].name@ == name {
        } else {
            lemma_subs_of_no_name(cs.drop_first(), name);
            assert forall|j: int| 0 <= j < cs.len() implies cs[j].name@ != name by {
                if j > 0 {
                    assert(cs.drop_first()[j - 1] == cs[j]);
                }
            }
        }
    }
}

/// Replacing an entry whose name is not `n` (by one whose name is not `n`
/// either) leaves `subs_of` at `n` alone.
proof fn lemma_subs_of_update_other(cs: Seq<ChannelEntry>, i: int, e: ChannelEntry, n: Seq<char>)
    requires
        0 <= i < cs.len(),
        cs[i].name@ != n,
        e.name@ != n,
    ensures
        subs_of(cs.update(i, e), n) == subs_of(cs, n),
    decreases i,
{
    if i == 0 {
        assert(cs.update(0, e).drop_first() =~= cs.drop_first());
    } else {
        assert(cs.update(i, e)[0] == cs[0]);
        if cs[0].name@ == n {
        } else {
            assert(cs.update(i, e).drop_first() =~= cs.drop_first().update(i - 1, e));
            assert(cs.drop_first()[i - 1] == cs[i]);
            lemma_subs_of_update_other(cs.drop_first(), i - 1, e, n);
        }
    }
}

/// Appending an entry whose name is not `n` leaves `subs_of` at `n` alone.
proof fn lemma_subs_of_push_other(cs: Seq<ChannelEntry>, e: ChannelEntry, n: Seq<char>)
    requires
        e.name@ != n,
    ensures
        subs_of(cs.push(e), n) == subs_of(cs, n),
    decreases cs.len(),
{
    if cs.len() == 0 {
        assert(cs.push(e)[0] == e);
        assert(cs.push(e).drop_first() =~= cs);
    } else {
        assert(cs.push(e)[0] == cs[0]);
        if cs[0].name@ == n {
        } else {
            assert(cs.push(e).drop_first() =~= cs.drop_first().push(e));
            lemma_subs_of_push_other(cs.drop_first(), e, n);
        }
    }
}

/// Dropping an entry whose name is not `n` leaves `subs_of` at `n` alone.
proof fn lemma_subs_of_remove_other(cs: Seq<ChannelEntry>, i: int, n: Seq<char>)
    requires
        0 <= i < cs.len(),
        cs[i].name@ != n,
    ensures
        subs_of(cs.remove(i), n) == subs_of(cs, n),
    decreases i,
{
    if i == 0 {
        assert(cs.remove(0) =~= cs.drop_first());
    } else {
        assert(cs.remove(i)[0] == cs[0]);
        if cs[0].name@ == n {
        } else {
            assert(cs.remove(i).drop_first() =~= cs.drop_first().remove(i - 1));
            assert(cs.drop_first()[i - 1] == cs[i]);
            lemma_subs_of_remove_other(cs.drop_first(), i - 1, n);
        }
    }
}

} // verus!
