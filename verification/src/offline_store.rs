use vstd::prelude::*;

use crate::keyed::{ascii_lower, to_ascii_lowercase, StrMap};

verus! {

/// A queued message with what its expiry and the size quota need: when it
/// was queued (milliseconds) and its approximate size in bytes.
#[derive(Debug)]
pub struct QueuedMessage<M> {
    pub message: M,
    pub queued_at: u64,
    pub size: usize,
}

/// A message queued at `queued_at` is expired at `now` once its age reaches
/// the time to live; a clock that went back counts as no age.
pub open spec fn expired(queued_at: u64, now: u64, ttl: u64) -> bool {
    (if now >= queued_at { now - queued_at } else { 0 }) >= ttl
}

/// The bytes a queue holds.
pub open spec fn queue_bytes<M>(q: Seq<QueuedMessage<M>>) -> int
    decreases q.len(),
{
    if q.len() == 0 {
        0
    } else {
        queue_bytes(q.drop_last()) + q.last().size
    }
}

/// The bytes all queues hold.
pub open spec fn store_bytes<M>(p: Seq<(String, Vec<QueuedMessage<M>>)>) -> int
    decreases p.len(),
{
    if p.len() == 0 {
        0
    } else {
        store_bytes(p.drop_last()) + queue_bytes(p.last().1@)
    }
}

/// The queued messages that have not expired at `now`, in order.
pub open spec fn live<M>(q: Seq<QueuedMessage<M>>, now: u64, ttl: u64) -> Seq<QueuedMessage<M>>
    decreases q.len(),
{
    if q.len() == 0 {
        q
    } else {
        let rest = live(q.drop_last(), now, ttl);
        if expired(q.last().queued_at, now, ttl) {
            rest
        } else {
            rest.push(q.last())
        }
    }
}

/// The messages of a queue, in order.
pub open spec fn messages_of<M>(q: Seq<QueuedMessage<M>>) -> Seq<M> {
    Seq::new(q.len(), |i: int| q[i].message)
}

/// The queues by lowercased nickname.
pub open spec fn queues_view<M>(m: Map<Seq<char>, Vec<QueuedMessage<M>>>) -> Map<Seq<char>, Seq<QueuedMessage<M>>> {
    Map::new(|k: Seq<char>| m.contains_key(k), |k: Seq<char>| m[k]@)
}

/// The queue of `key`, empty if there is none.
pub open spec fn queue_of<M>(qs: Map<Seq<char>, Seq<QueuedMessage<M>>>, key: Seq<char>) -> Seq<QueuedMessage<M>> {
    if qs.contains_key(key) {
        qs[key]
    } else {
        Seq::empty()
    }
}

/// The bytes the queues of `keys` hold, in `qs`.
pub open spec fn bytes_over<M>(qs: Map<Seq<char>, Seq<QueuedMessage<M>>>, keys: Seq<Seq<char>>) -> int
    decreases keys.len(),
{
    if keys.len() == 0 {
        0
    } else {
        bytes_over(qs, keys.drop_last()) + queue_bytes(qs[keys.last()])
    }
}

/// The byte sum over the first `j` pairs is the byte sum over their keys'
/// queues.
proof fn lemma_store_bytes_over<M>(p: Seq<(String, Vec<QueuedMessage<M>>)>, qs: Map<Seq<char>, Seq<QueuedMessage<M>>>, j: int)
    requires
        0 <= j <= p.len(),
        forall|i: int| 0 <= i < p.len() ==> #[trigger] qs[p[i].0@] == p[i].1@,
    ensures
        store_bytes(p.take(j)) == bytes_over(qs, p.take(j).map_values(|e: (String, Vec<QueuedMessage<M>>)| e.0@)),
    decreases j,
{
    let f = |e: (String, Vec<QueuedMessage<M>>)| e.0@;
    if j > 0 {
        lemma_store_bytes_over(p, qs, j - 1);
        assert(p.take(j).drop_last() =~= p.take(j - 1));
        assert(p.take(j).map_values(f).drop_last() =~= p.take(j - 1).map_values(f));
        assert(qs[p[j - 1].0@] == p[j - 1].1@);
    }
}

/// In-memory store for messages sent to users who are offline.
///
/// Messages are kept per nickname (in any case), in the order they were
/// queued. The store holds at most so many messages per user and so many
/// bytes in all, and drops messages that have outlived their time to live.
#[derive(Debug)]
pub struct OfflineMessageStore<M> {
    queues: StrMap<Vec<QueuedMessage<M>>>,
    max_messages_per_user: usize,
    max_total_bytes: usize,
    /// Time to live of a message, in milliseconds.
    message_ttl: u64,
    /// The bytes all queued messages hold.
    total_bytes: usize,
}

proof fn lemma_store_bytes_concat<M>(a: Seq<(String, Vec<QueuedMessage<M>>)>, b: Seq<(String, Vec<QueuedMessage<M>>)>)
    ensures
        store_bytes(a + b) == store_bytes(a) + store_bytes(b),
    decreases b.len(),
{
    if b.len() == 0 {
        assert(a + b =~= a);
    } else {
        lemma_store_bytes_concat(a, b.drop_last());
        assert((a + b).drop_last() =~= a + b.drop_last());
    }
}

proof fn lemma_store_bytes_split<M>(p: Seq<(String, Vec<QueuedMessage<M>>)>, i: int)
    requires
        0 <= i < p.len(),
    ensures
        store_bytes(p) == store_bytes(p.take(i)) + queue_bytes(p[i].1@) + store_bytes(p.skip(i + 1)),
        store_bytes(p.remove(i)) == store_bytes(p.take(i)) + store_bytes(p.skip(i + 1)),
{
    let a = p.take(i);
    let b = p.skip(i + 1);
    let x = seq![p[i]];
    assert(p =~= a + x + b);
    assert(p.remove(i) =~= a + b);
    lemma_store_bytes_concat(a + x, b);
    lemma_store_bytes_concat(a, x);
    lemma_store_bytes_concat(a, b);
    assert(x.drop_last() =~= Seq::<(String, Vec<QueuedMessage<M>>)>::empty());
    assert(store_bytes(x.drop_last()) == 0);
    assert(store_bytes(x) == queue_bytes(p[i].1@));
}

proof fn lemma_store_bytes_remove<M>(p: Seq<(String, Vec<QueuedMessage<M>>)>, i: int)
    requires
        0 <= i < p.len(),
    ensures
        store_bytes(p.remove(i)) == store_bytes(p) - queue_bytes(p[i].1@),
{
    lemma_store_bytes_split(p, i);
}

proof fn lemma_live_bytes<M>(q: Seq<QueuedMessage<M>>, now: u64, ttl: u64)
    ensures
        0 <= queue_bytes(live(q, now, ttl)) <= queue_bytes(q),
        live(q, now, ttl).len() <= q.len(),
    decreases q.len(),
{
    if q.len() > 0 {
        lemma_live_bytes(q.drop_last(), now, ttl);
        let rest = live(q.drop_last(), now, ttl);
        if !expired(q.last().queued_at, now, ttl) {
            assert(rest.push(q.last()).drop_last() =~= rest);
        }
    }
}

proof fn lemma_store_bytes_nonneg<M>(p: Seq<(String, Vec<QueuedMessage<M>>)>)
    ensures
        store_bytes(p) >= 0,
    decreases p.len(),
{
    if p.len() > 0 {
        lemma_store_bytes_nonneg(p.drop_last());
        lemma_live_bytes(p.last().1@, 0, 0);
    }
}

/// Keep the messages of `q` that have not expired at `now`, in order, and
/// count the bytes of those dropped.
fn purge_expired<M>(q: Vec<QueuedMessage<M>>, now: u64, ttl: u64) -> (r: (Vec<QueuedMessage<M>>, usize))
    requires
        queue_bytes(q@) <= usize::MAX,
    ensures
        r.0@ == live(q@, now, ttl),
        r.1 == queue_bytes(q@) - queue_bytes(live(q@, now, ttl)),
{
    let ghost q0 = q@;
    let mut rest = q;
    // Turn the queue around, so that popping gives the oldest first.
    let mut items: Vec<QueuedMessage<M>> = Vec::new();
    while rest.len() > 0
        invariant
            rest@.len() + items@.len() == q0.len(),
            rest@ == q0.take(rest@.len() as int),
            forall|j: int| 0 <= j < items@.len() ==> #[trigger] items@[j] == q0[q0.len() - 1 - j],
        decreases rest@.len(),
    {
        match rest.pop() {
            Some(m) => {
                items.push(m);
            },
            None => {},
        }
        assert(rest@ =~= q0.take(rest@.len() as int));
    }
    let mut kept: Vec<QueuedMessage<M>> = Vec::new();
    let mut freed: usize = 0;
    assert(q0.take(0) =~= Seq::<QueuedMessage<M>>::empty());
    while items.len() > 0
        invariant
            items@.len() <= q0.len(),
            forall|j: int| 0 <= j < items@.len() ==> #[trigger] items@[j] == q0[q0.len() - 1 - j],
            kept@ == live(q0.take(q0.len() - items@.len()), now, ttl),
            freed == queue_bytes(q0.take(q0.len() - items@.len())) - queue_bytes(kept@),
            queue_bytes(q0) <= usize::MAX,
        decreases items@.len(),
    {
        let ghost k = q0.len() - items@.len();
        proof {
            assert(q0.take(k + 1).drop_last() =~= q0.take(k));
            assert(q0.take(k + 1).last() == q0[k]);
            lemma_live_bytes(q0.take(k + 1), now, ttl);
            lemma_take_bytes(q0, k + 1);
        }
        match items.pop() {
            Some(m) => {
                let age: u64 = if now >= m.queued_at { now - m.queued_at } else { 0 };
                if age < ttl {
                    let ghost prev = kept@;
                    kept.push(m);
                    assert(kept@.drop_last() =~= prev);
                } else {
                    freed = freed + m.size;
                }
            },
            None => {},
        }
    }
    assert(q0.take(q0.len() as int) =~= q0);
    (kept, freed)
}

/// Move the messages out of their queue entries, in order.
fn into_messages<M>(q: Vec<QueuedMessage<M>>) -> (r: Vec<M>)
    ensures
        r@ == messages_of(q@),
{
    let ghost q0 = q@;
    let mut rest = q;
    let mut items: Vec<QueuedMessage<M>> = Vec::new();
    while rest.len() > 0
        invariant
            rest@.len() + items@.len() == q0.len(),
            rest@ == q0.take(rest@.len() as int),
            forall|j: int| 0 <= j < items@.len() ==> #[trigger] items@[j] == q0[q0.len() - 1 - j],
        decreases rest@.len(),
    {
        match rest.pop() {
            Some(m) => {
                items.push(m);
            },
            None => {},
        }
        assert(rest@ =~= q0.take(rest@.len() as int));
    }
    let mut out: Vec<M> = Vec::new();
    while items.len() > 0
        invariant
            items@.len() <= q0.len(),
            forall|j: int| 0 <= j < items@.len() ==> #[trigger] items@[j] == q0[q0.len() - 1 - j],
            out@ == messages_of(q0.take(q0.len() - items@.len())),
        decreases items@.len(),
    {
        let ghost k = q0.len() - items@.len();
        match items.pop() {
            Some(m) => {
                out.push(m.message);
            },
            None => {},
        }
        assert(out@ =~= messages_of(q0.take(k + 1)));
    }
    assert(q0.take(q0.len() as int) =~= q0);
    out
}

/// The bytes a queue holds, counted.
fn count_bytes<M>(q: &Vec<QueuedMessage<M>>) -> (r: usize)
    requires
        queue_bytes(q@) <= usize::MAX,
    ensures
        r == queue_bytes(q@),
{
    let mut total: usize = 0;
    let mut i: usize = 0;
    while i < q.len()
        invariant
            i <= q@.len(),
            total == queue_bytes(q@.take(i as int)),
            queue_bytes(q@) <= usize::MAX,
        decreases q@.len() - i,
    {
        proof {
            assert(q@.take(i + 1).drop_last() =~= q@.take(i as int));
            lemma_take_bytes(q@, i + 1);
        }
        total = total + q[i].size;
        i = i + 1;
    }
    assert(q@.take(q@.len() as int) =~= q@);
    total
}

/// The number of messages in the queues.
pub open spec fn message_count<M>(p: Seq<(String, Vec<QueuedMessage<M>>)>) -> int
    decreases p.len(),
{
    if p.len() == 0 {
        0
    } else {
        message_count(p.drop_last()) + p.last().1@.len()
    }
}

impl<M> OfflineMessageStore<M> {
    /// The byte count is that of the queued messages, within the limit.
    #[verifier::type_invariant]
    spec fn wf(&self) -> bool {
        &&& self.total_bytes == store_bytes(self.queues.pairs())
        &&& self.total_bytes <= self.max_total_bytes
    }

    /// The queued messages, by lowercased nickname.
    pub closed spec fn queues(&self) -> Map<Seq<char>, Seq<QueuedMessage<M>>> {
        queues_view(self.queues@)
    }

    /// The number of queued messages, expired ones included.
    pub closed spec fn queued_count(&self) -> int {
        message_count(self.queues.pairs())
    }

    /// The bytes that all queued messages hold.
    pub closed spec fn total(&self) -> nat {
        self.total_bytes as nat
    }

    /// The nicknames with a queue, in the order their queues were made.
    pub closed spec fn key_order(&self) -> Seq<Seq<char>> {
        self.queues.pairs().map_values(|e: (String, Vec<QueuedMessage<M>>)| e.0@)
    }

    /// The most messages kept for one user.
    pub closed spec fn per_user_limit(&self) -> nat {
        self.max_messages_per_user as nat
    }

    /// The most bytes kept in all.
    pub closed spec fn byte_limit(&self) -> nat {
        self.max_total_bytes as nat
    }

    /// The time to live of a message, in milliseconds.
    pub closed spec fn ttl(&self) -> u64 {
        self.message_ttl
    }

    /// An empty store with the given limits; the time to live is in
    /// milliseconds.
    pub fn new(max_messages_per_user: usize, max_total_bytes: usize, message_ttl: u64) -> (r: Self)
        ensures
            r.queues() == Map::<Seq<char>, Seq<QueuedMessage<M>>>::empty(),
            r.total() == 0,
            r.per_user_limit() == max_messages_per_user,
            r.byte_limit() == max_total_bytes,
            r.ttl() == message_ttl,
    {
        let r = OfflineMessageStore { queues: StrMap::new(), max_messages_per_user, max_total_bytes, message_ttl, total_bytes: 0 };
        assert(r.queues() =~= Map::<Seq<char>, Seq<QueuedMessage<M>>>::empty());
        r
    }

    /// Queue a message of `size` bytes for delivery to `nick` when they
    /// reconnect, at time `now` (milliseconds).
    ///
    /// It is dropped, and `false` returned, when the store would then hold
    /// more bytes than its limit, or when the user already has as many
    /// messages as the limit allows once expired ones are dropped.
    pub fn queue_message(&mut self, nick: &str, message: M, size: usize, now: u64) -> (r: bool)
        ensures
            final(self).total() <= final(self).byte_limit(),
            final(self).per_user_limit() == old(self).per_user_limit(),
            final(self).byte_limit() == old(self).byte_limit(),
            final(self).ttl() == old(self).ttl(),
            old(self).total() + size > old(self).byte_limit() ==> !r && final(self).queues() == old(self).queues()
                && final(self).total() == old(self).total(),
            old(self).total() + size <= old(self).byte_limit() ==> ({
                let key = ascii_lower(nick@);
                let cur = queue_of(old(self).queues(), key);
                let kept = live(cur, now, old(self).ttl());
                let freed = queue_bytes(cur) - queue_bytes(kept);
                &&& r == (kept.len() < old(self).per_user_limit())
                &&& !r ==> final(self).queues() == old(self).queues().insert(key, kept) && final(self).total() == old(self).total() - freed
                &&& r ==> final(self).queues() == old(self).queues().insert(key, kept.push(QueuedMessage { message, queued_at: now, size }))
                    && final(self).total() == old(self).total() - freed + size
            }),
    {
        proof {
            use_type_invariant(&*self);
        }
        if size > self.max_total_bytes - self.total_bytes {
            return false;
        }
        let key = to_ascii_lowercase(nick);
        let mut me = OfflineMessageStore {
            queues: StrMap::new(),
            max_messages_per_user: self.max_messages_per_user,
            max_total_bytes: self.max_total_bytes,
            message_ttl: self.message_ttl,
            total_bytes: 0,
        };
        std::mem::swap(self, &mut me);
        proof {
            use_type_invariant(&me);
            use_type_invariant(&me.queues);
            me.queues.lemma_pairs();
        }
        let OfflineMessageStore { mut queues, max_messages_per_user, max_total_bytes, message_ttl, total_bytes } = me;
        let ghost p0 = queues.pairs();
        let ghost m0 = queues@;
        let cur = match queues.remove(key.as_str()) {
            Some(q) => q,
            None => Vec::new(),
        };
        proof {
            lemma_store_bytes_nonneg(queues.pairs());
            if m0.contains_key(key@) {
                let i = choose|i: int| 0 <= i < p0.len() && (#[trigger] p0[i]).0@ == key@ && queues.pairs() == p0.remove(i);
                assert(p0[i].1 == m0[key@]);
                lemma_store_bytes_remove(p0, i);
            } else {
                assert(cur@ =~= Seq::<QueuedMessage<M>>::empty());
                assert(queue_bytes(cur@) == 0);
            }
            lemma_live_bytes(cur@, now, message_ttl);
        }
        let ghost cur_view = cur@;
        let (mut kept, freed) = purge_expired(cur, now, message_ttl);
        let mut total = total_bytes - freed;
        let accepted = kept.len() < max_messages_per_user;
        if accepted {
            let ghost before = kept@;
            kept.push(QueuedMessage { message, queued_at: now, size });
            assert(kept@.drop_last() =~= before);
            total = total + size;
        }
        let ghost p1 = queues.pairs();
        let ghost kept_view = kept@;
        proof {
            use_type_invariant(&queues);
        }
        queues.insert(key, kept);
        proof {
            assert(queues.pairs().drop_last() =~= p1);
        }
        *self = OfflineMessageStore { queues, max_messages_per_user, max_total_bytes, message_ttl, total_bytes: total };
        proof {
            use_type_invariant(&*self);
            assert(self.queues() =~= queues_view(m0).insert(key@, kept_view));
            assert(old(self).queues() == queues_view(m0));
            if m0.contains_key(key@) {
                assert(queue_of(old(self).queues(), key@) == cur_view);
            } else {
                assert(queue_of(old(self).queues(), key@) =~= cur_view);
            }
        }
        accepted
    }

    /// Take all queued messages for `nick` at time `now`, removing the
    /// user's queue. Expired messages are left out; the others come in the
    /// order they were queued.
    pub fn take_messages(&mut self, nick: &str, now: u64) -> (r: Vec<M>)
        ensures
            final(self).total() <= final(self).byte_limit(),
            final(self).per_user_limit() == old(self).per_user_limit(),
            final(self).byte_limit() == old(self).byte_limit(),
            final(self).ttl() == old(self).ttl(),
            ({
                let key = ascii_lower(nick@);
                let cur = queue_of(old(self).queues(), key);
                &&& r@ == messages_of(live(cur, now, old(self).ttl()))
                &&& final(self).queues() == old(self).queues().remove(key)
                &&& final(self).total() == old(self).total() - queue_bytes(cur)
            }),
    {
        proof {
            use_type_invariant(&*self);
        }
        let key = to_ascii_lowercase(nick);
        let mut me = OfflineMessageStore {
            queues: StrMap::new(),
            max_messages_per_user: self.max_messages_per_user,
            max_total_bytes: self.max_total_bytes,
            message_ttl: self.message_ttl,
            total_bytes: 0,
        };
        std::mem::swap(self, &mut me);
        proof {
            use_type_invariant(&me);
            use_type_invariant(&me.queues);
            me.queues.lemma_pairs();
        }
        let OfflineMessageStore { mut queues, max_messages_per_user, max_total_bytes, message_ttl, total_bytes } = me;
        let ghost p0 = queues.pairs();
        let ghost m0 = queues@;
        let removed = queues.remove(key.as_str());
        proof {
            lemma_store_bytes_nonneg(queues.pairs());
        }
        let (total, messages) = match removed {
            Some(q) => {
                proof {
                    let i = choose|i: int| 0 <= i < p0.len() && (#[trigger] p0[i]).0@ == key@ && queues.pairs() == p0.remove(i);
                    assert(p0[i].1 == m0[key@]);
                    lemma_store_bytes_remove(p0, i);
                    lemma_live_bytes(q@, now, message_ttl);
                }
                let bytes = count_bytes(&q);
                let (kept, _) = purge_expired(q, now, message_ttl);
                (total_bytes - bytes, into_messages(kept))
            },
            None => {
                assert(queue_of(queues_view(m0), key@) =~= Seq::<QueuedMessage<M>>::empty());
                assert(messages_of(Seq::<QueuedMessage<M>>::empty()) =~= Seq::<M>::empty());
                (total_bytes, Vec::new())
            },
        };
        *self = OfflineMessageStore { queues, max_messages_per_user, max_total_bytes, message_ttl, total_bytes: total };
        proof {
            use_type_invariant(&*self);
        }
        assert(self.queues() =~= queues_view(m0).remove(key@));
        messages
    }

    /// Number of users with a queue (possibly empty).
    pub fn user_count(&self) -> (r: usize)
        ensures
            r == self.queues().dom().len(),
    {
        let r = self.queues.len();
        assert(self.queues().dom() =~= self.queues@.dom());
        r
    }

    /// Number of messages queued (expired ones included), up to the largest
    /// `usize`.
    pub fn total_message_count(&self) -> (r: usize)
        ensures
            r == (if self.queued_count() <= usize::MAX { self.queued_count() } else { usize::MAX as int }),
    {
        let mut count: usize = 0;
        let mut i: usize = 0;
        let n = self.queues.len();
        proof {
            lemma_message_count_monotone(self.queues.pairs(), 0);
        }
        while i < n
            invariant
                n == self.queues.pairs().len(),
                i <= n,
                count == (if message_count(self.queues.pairs().take(i as int)) <= usize::MAX { message_count(self.queues.pairs().take(i as int)) } else { usize::MAX as int }),
            decreases n - i,
        {
            proof {
                assert(self.queues.pairs().take(i + 1).drop_last() =~= self.queues.pairs().take(i as int));
                lemma_message_count_monotone(self.queues.pairs(), i as int);
            }
            count = count.saturating_add(self.queues.value_at(i).len());
            i = i + 1;
        }
        assert(self.queues.pairs().take(n as int) =~= self.queues.pairs());
        count
    }

    /// The most messages kept for one user.
    pub fn max_messages_per_user(&self) -> (r: usize)
        ensures
            r == self.per_user_limit(),
    {
        self.max_messages_per_user
    }

    /// The most bytes kept in all.
    pub fn max_total_bytes(&self) -> (r: usize)
        ensures
            r == self.byte_limit(),
    {
        self.max_total_bytes
    }

    /// The time to live of a message, in milliseconds.
    pub fn message_ttl(&self) -> (r: u64)
        ensures
            r == self.ttl(),
    {
        self.message_ttl
    }

    /// The bytes that all queued messages hold: the sum of the sizes of the
    /// messages in every queue.
    pub fn total_bytes(&self) -> (r: usize)
        ensures
            r == self.total(),
            self.key_order().no_duplicates(),
            self.key_order().to_set() == self.queues().dom(),
            self.total() == bytes_over(self.queues(), self.key_order()),
    {
        proof {
            use_type_invariant(self);
            use_type_invariant(&self.queues);
            self.queues.lemma_pairs();
            let p = self.queues.pairs();
            let ko = self.key_order();
            assert forall|i: int| 0 <= i < p.len() implies #[trigger] self.queues()[p[i].0@] == p[i].1@ by {}
            lemma_store_bytes_over(p, self.queues(), p.len() as int);
            assert(p.take(p.len() as int) =~= p);
            assert forall|a: int, b: int| 0 <= a < ko.len() && 0 <= b < ko.len() && a != b implies ko[a] != ko[b] by {
                assert(p[a].0@ != p[b].0@);
            }
            assert forall|k: Seq<char>| ko.to_set().contains(k) <==> self.queues().dom().contains(k) by {
                if self.queues().dom().contains(k) {
                    let i = choose|i: int| 0 <= i < p.len() && (#[trigger] p[i]).0@ == k;
                    assert(ko[i] == k);
                }
                if ko.to_set().contains(k) {
                    let i = choose|i: int| 0 <= i < ko.len() && ko[i] == k;
                    assert(self.queues@.contains_key(p[i].0@));
                }
            }
            assert(ko.to_set() =~= self.queues().dom());
        }
        self.total_bytes
    }
}

proof fn lemma_message_count_monotone<M>(p: Seq<(String, Vec<QueuedMessage<M>>)>, i: int)
    requires
        0 <= i <= p.len(),
    ensures
        message_count(p.take(i)) >= 0,
    decreases i,
{
    if i > 0 {
        assert(p.take(i).drop_last() =~= p.take(i - 1));
        lemma_message_count_monotone(p, i - 1);
    }
}

impl<M> Default for OfflineMessageStore<M> {
    /// A hundred messages per user, ten mebibytes in all, and a week to live.
    fn default() -> (r: Self)
        ensures
            r.queues() == Map::<Seq<char>, Seq<QueuedMessage<M>>>::empty(),
            r.total() == 0,
            r.per_user_limit() == 100,
            r.byte_limit() == 10 * 1024 * 1024,
            r.ttl() == 7 * 24 * 3600 * 1000,
    {
        Self::new(100, 10 * 1024 * 1024, 7 * 24 * 3600 * 1000)
    }
}

proof fn lemma_take_bytes<M>(q: Seq<QueuedMessage<M>>, k: int)
    requires
        0 <= k <= q.len(),
    ensures
        queue_bytes(q.take(k)) <= queue_bytes(q),
    decreases q.len() - k,
{
    if k < q.len() {
        lemma_take_bytes(q, k + 1);
        assert(q.take(k + 1).drop_last() =~= q.take(k));
    } else {
        assert(q.take(k) =~= q);
    }
}

/// A message that was accepted is delivered by a later take that comes
/// before it expires, after the messages queued before it that are still
/// live: taking gives what was queued, in order.
pub proof fn lemma_accepted_message_delivered<M>(
    q: Seq<QueuedMessage<M>>,
    message: M,
    size: usize,
    now: u64,
    later: u64,
    ttl: u64,
)
    requires
        !expired(now, later, ttl),
    ensures
        messages_of(live(q.push(QueuedMessage { message, queued_at: now, size }), later, ttl)) == messages_of(
            live(q, later, ttl),
        ).push(message),
{
    let q2 = q.push(QueuedMessage { message, queued_at: now, size });
    assert(q2.drop_last() =~= q);
    assert(messages_of(live(q2, later, ttl)) =~= messages_of(live(q, later, ttl)).push(message));
}

/// Once a user's messages are taken, a second take gives nothing.
pub proof fn lemma_take_empties<M>(qs: Map<Seq<char>, Seq<QueuedMessage<M>>>, key: Seq<char>, now: u64, ttl: u64)
    ensures
        messages_of(live(queue_of(qs.remove(key), key), now, ttl)) == Seq::<M>::empty(),
{
    assert(queue_of(qs.remove(key), key) =~= Seq::<QueuedMessage<M>>::empty());
    assert(messages_of(live(Seq::<QueuedMessage<M>>::empty(), now, ttl)) =~= Seq::<M>::empty());
}

} // verus!
